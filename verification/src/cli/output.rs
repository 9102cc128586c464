//! Output formats of the command-line client.
use vstd::prelude::*;
use crate::text::{copy_str, push_char};

verus! {

/// How results are printed.
#[derive(Debug, Clone, Copy, PartialEq, Eq, Structural)]
pub enum OutputFormat {
    /// A human-readable table.
    Table,
    /// Machine-readable JSON.
    Json,
    /// Ids only, one per line.
    Quiet,
}

impl OutputFormat {
    /// The format chosen by the `--json` and `--quiet` flags: JSON wins,
    /// then quiet; a table by default.
    pub fn from_flags(json: bool, quiet: bool) -> (f: OutputFormat)
        ensures
            json ==> f == OutputFormat::Json,
            !json && quiet ==> f == OutputFormat::Quiet,
            !json && !quiet ==> f == OutputFormat::Table,
    {
        if json {
            OutputFormat::Json
        } else if quiet {
            OutputFormat::Quiet
        } else {
            OutputFormat::Table
        }
    }
}

/// The width of the room id column of the room table.
pub const ROOM_ID_WIDTH: usize = 40;

/// `s` followed by spaces up to `width` characters (unchanged when already
/// that long).
pub open spec fn padded_right(s: Seq<char>, width: nat) -> Seq<char> {
    if s.len() >= width { s } else { s + Seq::new((width - s.len()) as nat, |i: int| ' ') }
}

/// `s` padded with spaces on the right to `width` characters.
pub fn pad_right(s: &str, width: usize) -> (r: String)
    ensures
        r@ == padded_right(s@, width as nat),
{
    let mut r = copy_str(s);
    let n = s.unicode_len();
    if n >= width {
        return r;
    }
    let mut i: usize = n;
    while i < width
        invariant
            n == s@.len(),
            n <= i <= width,
            r@ == s@ + Seq::new((i - n) as nat, |k: int| ' '),
        decreases width - i,
    {
        push_char(&mut r, ' ');
        proof {
            assert(s@ + Seq::new((i + 1 - n) as nat, |k: int| ' ') =~= (s@ + Seq::new((i - n) as nat, |k: int| ' ')).push(' '));
        }
        i = i + 1;
    }
    r
}

/// The header line of the room table.
pub fn room_table_header() -> (r: String)
    ensures
        r@ == padded_right("ROOM ID"@, ROOM_ID_WIDTH as nat) + " NAME"@,
{
    let mut h = pad_right("ROOM ID", ROOM_ID_WIDTH);
    h.append(" NAME");
    h
}

/// The line of the room table for room `room_id` named `name`.
pub fn room_table_row(room_id: &str, name: &str) -> (r: String)
    ensures
        r@ == padded_right(room_id@, ROOM_ID_WIDTH as nat) + " "@ + name@,
{
    let mut row = pad_right(room_id, ROOM_ID_WIDTH);
    row.append(" ");
    row.append(name);
    row
}

/// The header line of the message table.
pub fn message_table_header() -> (r: String)
    ensures
        r@ == padded_right("REF ID"@, 28) + " "@ + padded_right("AUTHOR"@, 20) + " "@
            + padded_right("CREATED AT"@, 30) + " "@ + "CONTENT ID"@,
{
    message_table_row("REF ID", "AUTHOR", "CREATED AT", "CONTENT ID")
}

/// The line of the message table for one message ref.
pub fn message_table_row(ref_id: &str, author: &str, created_at: &str, content_id: &str) -> (r: String)
    ensures
        r@ == padded_right(ref_id@, 28) + " "@ + padded_right(author@, 20) + " "@
            + padded_right(created_at@, 30) + " "@ + content_id@,
{
    let mut row = pad_right(ref_id, 28);
    row.append(" ");
    row.append(&pad_right(author, 20));
    row.append(" ");
    row.append(&pad_right(created_at, 30));
    row.append(" ");
    row.append(content_id);
    row
}

} // verus!
