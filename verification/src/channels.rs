//! The Channels extension: named sub-streams of a room, carried as up to
//! five tags of the form `[a-z0-9-]{1,64}` on each message ref.
use vstd::prelude::*;
use crate::ext_api::context::RegistrationContext;
use crate::ext_api::error::ExtError;
use crate::ext_api::manifest::{ExtensionManifest, UriPath};
use crate::ext_api::ExtensionPlugin;
use crate::text::{chars_of, concat2, concat3, copy_str, decimal, str_eq, u64_to_decimal};

verus! {

/// The most channel tags one ref may carry.
pub const MAX_TAGS: usize = 5;

/// The longest a channel tag may be.
pub const MAX_TAG_LENGTH: usize = 64;

/// Why channel tags were refused.
#[derive(Debug)]
pub enum ChannelHookError {
    /// A tag is empty, too long, or has a character outside `[a-z0-9-]`.
    InvalidTag { tag: String },
    /// More than `MAX_TAGS` tags.
    TooManyTags { count: usize },
    /// A tag occurs twice.
    DuplicateTag { tag: String },
}

impl ChannelHookError {
    /// The human-readable description of this error.
    pub open spec fn spec_message(&self) -> Seq<char> {
        match self {
            ChannelHookError::InvalidTag { tag } => "invalid channel tag '"@ + tag@ + "': must be [a-z0-9-]{1,64}"@,
            ChannelHookError::TooManyTags { count } => "too many channel tags: "@ + decimal(*count as nat)
                + " exceeds maximum of 5"@,
            ChannelHookError::DuplicateTag { tag } => "duplicate channel tag: '"@ + tag@ + "'"@,
        }
    }

    /// The human-readable description of this error.
    pub fn message(&self) -> (m: String)
        ensures
            m@ == self.spec_message(),
    {
        match self {
            ChannelHookError::InvalidTag { tag } => concat3("invalid channel tag '", tag, "': must be [a-z0-9-]{1,64}"),
            ChannelHookError::TooManyTags { count } =>
                concat3("too many channel tags: ", &u64_to_decimal(*count as u64), " exceeds maximum of 5"),
            ChannelHookError::DuplicateTag { tag } => concat3("duplicate channel tag: '", tag, "'"),
        }
    }
}

/// `c` may appear in a channel tag.
pub open spec fn tag_char(c: char) -> bool {
    ('a' <= c <= 'z') || ('0' <= c <= '9') || c == '-'
}

/// `tag` is a valid channel tag: 1 to 64 characters of `[a-z0-9-]`.
pub open spec fn valid_tag(tag: Seq<char>) -> bool {
    1 <= tag.len() <= MAX_TAG_LENGTH && forall|i: int| 0 <= i < tag.len() ==> tag_char(#[trigger] tag[i])
}

/// Checks one channel tag.
pub fn validate_channel_tag(tag: &str) -> (r: Result<(), ChannelHookError>)
    ensures
        valid_tag(tag@) ==> r is Ok,
        !valid_tag(tag@) ==> (r matches Err(ChannelHookError::InvalidTag { tag: t }) && t@ == tag@),
{
    let cs = chars_of(tag);
    if cs.len() == 0 || cs.len() > MAX_TAG_LENGTH {
        return Err(ChannelHookError::InvalidTag { tag: copy_str(tag) });
    }
    let mut i: usize = 0;
    while i < cs.len()
        invariant
            cs@ == tag@,
            i <= cs@.len(),
            forall|k: int| 0 <= k < i ==> tag_char(#[trigger] cs@[k]),
        decreases cs@.len() - i,
    {
        let c = cs[i];
        if !(('a' <= c && c <= 'z') || ('0' <= c && c <= '9') || c == '-') {
            assert(!tag_char(tag@[i as int]));
            return Err(ChannelHookError::InvalidTag { tag: copy_str(tag) });
        }
        i = i + 1;
    }
    Ok(())
}

/// Tag `i` is invalid or repeats an earlier tag.
pub open spec fn bad_tag_at(tags: Seq<Seq<char>>, i: int) -> bool {
    !valid_tag(tags[i]) || exists|j: int| 0 <= j < i && tags[j] == tags[i]
}

/// The first tag that is invalid or a repeat, if any.
pub open spec fn first_bad_tag(tags: Seq<Seq<char>>) -> Option<int> {
    if exists|i: int| 0 <= i < tags.len() && bad_tag_at(tags, i) {
        Some(choose|i: int| 0 <= i < tags.len() && bad_tag_at(tags, i)
            && forall|j: int| 0 <= j < i ==> !bad_tag_at(tags, j))
    } else {
        None
    }
}

/// The views of a slice of string slices.
pub open spec fn views(tags: Seq<&str>) -> Seq<Seq<char>> {
    tags.map_values(|t: &str| t@)
}

/// Checks the channel tags of one ref: at most five, each valid, none
/// repeated; the tags are checked in order and the first problem is
/// reported.
pub fn validate_channel_tags(tags: &[&str]) -> (r: Result<(), ChannelHookError>)
    ensures
        tags@.len() > MAX_TAGS ==> (r matches Err(ChannelHookError::TooManyTags { count }) && count == tags@.len()),
        tags@.len() <= MAX_TAGS ==> match first_bad_tag(views(tags@)) {
            None => r is Ok,
            Some(i) => if !valid_tag(views(tags@)[i]) {
                r matches Err(ChannelHookError::InvalidTag { tag: t }) && t@ == views(tags@)[i]
            } else {
                r matches Err(ChannelHookError::DuplicateTag { tag: t }) && t@ == views(tags@)[i]
            },
        },
{
    if tags.len() > MAX_TAGS {
        return Err(ChannelHookError::TooManyTags { count: tags.len() });
    }
    let ghost tv = views(tags@);
    let mut i: usize = 0;
    while i < tags.len()
        invariant
            tv == views(tags@),
            tags@.len() <= MAX_TAGS,
            i <= tags@.len(),
            forall|k: int| 0 <= k < i ==> !bad_tag_at(tv, k),
        decreases tags@.len() - i,
    {
        assert(tv[i as int] == tags@[i as int]@);
        let v = validate_channel_tag(tags[i]);
        if v.is_err() {
            proof { lemma_first_bad(tv, i as int); }
            return v;
        }
        let mut j: usize = 0;
        while j < i
            invariant
                tv == views(tags@),
                tags@.len() <= MAX_TAGS,
                i < tags@.len(),
                j <= i,
                valid_tag(tv[i as int]),
                forall|k: int| 0 <= k < i ==> !bad_tag_at(tv, k),
                forall|k: int| 0 <= k < j ==> tv[k] != tv[i as int],
            decreases i - j,
        {
            assert(tv[j as int] == tags@[j as int]@);
            if str_eq(tags[j], tags[i]) {
                proof {
                    assert(bad_tag_at(tv, i as int));
                    lemma_first_bad(tv, i as int);
                }
                return Err(ChannelHookError::DuplicateTag { tag: copy_str(tags[i]) });
            }
            j = j + 1;
        }
        assert(!bad_tag_at(tv, i as int));
        i = i + 1;
    }
    Ok(())
}

/// Tag `i` is bad and every earlier one is fine: `i` is the first bad tag.
proof fn lemma_first_bad(tv: Seq<Seq<char>>, i: int)
    requires
        0 <= i < tv.len(),
        bad_tag_at(tv, i),
        forall|k: int| 0 <= k < i ==> !bad_tag_at(tv, k),
    ensures
        first_bad_tag(tv) == Some(i),
{
    let c = choose|c: int| 0 <= c < tv.len() && bad_tag_at(tv, c) && forall|j: int| 0 <= j < c ==> !bad_tag_at(tv, j);
    if c < i {
    } else if c > i {
        assert(!bad_tag_at(tv, i));
    }
}

/// The Channels extension plugin.
pub struct ChannelsExtension {
    manifest: ExtensionManifest,
}

/// The hook declarations the Channels extension registers, in order.
pub open spec fn channel_hook_jsons() -> Seq<Seq<char>> {
    seq![
        "{\"id\":\"channels.inject_tags\",\"phase\":\"PreSend\",\"priority\":30}"@,
        "{\"id\":\"channels.update_activity\",\"phase\":\"AfterWrite\",\"priority\":50}"@,
        "{\"id\":\"channels.aggregate\",\"phase\":\"AfterRead\",\"priority\":50}"@,
    ]
}

impl ChannelsExtension {
    /// The extension's manifest.
    pub closed spec fn manifest_view(&self) -> ExtensionManifest {
        self.manifest
    }

    /// The Channels extension with its bundled manifest: name `channels`,
    /// version `0.1.0`, API version 1, three hooks and the channel view path.
    pub fn new() -> (e: ChannelsExtension)
        ensures
            e.manifest_view().name@ == "channels"@,
            e.manifest_view().version@ == "0.1.0"@,
            e.manifest_view().api_version == 1,
            e.manifest_view().datatype_declarations@.len() == 0,
            e.manifest_view().hook_declarations.deep_view() == seq!["channels.inject_tags"@, "channels.update_activity"@, "channels.aggregate"@],
            e.manifest_view().ext_dependencies@.len() == 0,
            e.manifest_view().uri_paths@.len() == 1,
            e.manifest_view().uri_paths@[0].pattern@ == "/r/{room_id}/c/{channel_name}"@,
    {
        let mut hooks: Vec<String> = Vec::new();
        hooks.push(copy_str("channels.inject_tags"));
        hooks.push(copy_str("channels.update_activity"));
        hooks.push(copy_str("channels.aggregate"));
        let mut paths: Vec<UriPath> = Vec::new();
        paths.push(UriPath { pattern: copy_str("/r/{room_id}/c/{channel_name}"), description: copy_str("Channel view within a room") });
        let manifest = ExtensionManifest {
            name: copy_str("channels"),
            version: copy_str("0.1.0"),
            api_version: 1,
            datatype_declarations: Vec::new(),
            hook_declarations: hooks,
            ext_dependencies: Vec::new(),
            uri_paths: paths,
        };
        assert(manifest.hook_declarations.deep_view() =~= seq!["channels.inject_tags"@, "channels.update_activity"@, "channels.aggregate"@]);
        ChannelsExtension { manifest }
    }

    /// Registers the three channel hooks, in order: tag injection before
    /// sending, activity update after writing, aggregation after reading.
    pub fn register_hooks(&self, ctx: &mut RegistrationContext) -> (r: Result<(), ExtError>)
        ensures
            r is Ok,
            final(ctx).hooks_view() == old(ctx).hooks_view() + channel_hook_jsons(),
            final(ctx).datatypes_view() == old(ctx).datatypes_view(),
            final(ctx).error_view() == old(ctx).error_view(),
    {
        let a = "{\"id\":\"channels.inject_tags\",\"phase\":\"PreSend\",\"priority\":30}";
        let b = "{\"id\":\"channels.update_activity\",\"phase\":\"AfterWrite\",\"priority\":50}";
        let c = "{\"id\":\"channels.aggregate\",\"phase\":\"AfterRead\",\"priority\":50}";
        proof {
            reveal_strlit("{\"id\":\"channels.inject_tags\",\"phase\":\"PreSend\",\"priority\":30}");
            reveal_strlit("{\"id\":\"channels.update_activity\",\"phase\":\"AfterWrite\",\"priority\":50}");
            reveal_strlit("{\"id\":\"channels.aggregate\",\"phase\":\"AfterRead\",\"priority\":50}");
        }
        let r1 = ctx.register_hook_json(a);
        let r2 = ctx.register_hook_json(b);
        let r3 = ctx.register_hook_json(c);
        assert(ctx.hooks_view() =~= old(ctx).hooks_view() + channel_hook_jsons());
        Ok(())
    }
}

impl Default for ChannelsExtension {
    /// The Channels extension with its bundled manifest.
    fn default() -> (e: ChannelsExtension)
        ensures
            e.manifest_view().name@ == "channels"@,
    {
        ChannelsExtension::new()
    }
}

impl ExtensionPlugin for ChannelsExtension {
    /// The bundled manifest.
    fn manifest(&self) -> (m: &ExtensionManifest)
        ensures
            *m == self.manifest_view(),
    {
        &self.manifest
    }

    /// Registers the three channel hooks, in order (see `register_hooks`);
    /// no datatype is registered and no error recorded.
    fn register(&self, ctx: &mut RegistrationContext) -> (r: Result<(), ExtError>)
        ensures
            r is Ok,
            final(ctx).hooks_view() == old(ctx).hooks_view() + channel_hook_jsons(),
            final(ctx).datatypes_view() == old(ctx).datatypes_view(),
            final(ctx).error_view() == old(ctx).error_view(),
    {
        self.register_hooks(ctx)
    }
}

} // verus!
