//! The report: one line per entry, a size made readable and a label,
//! with the two columns aligned.
//!
//! Text is held as bytes throughout. A line is the size label, a tab, the
//! entry's label and a line feed; the column aligner turns the tabs of a
//! block of lines into padding.

use crate::error::Error;
use crate::listing::is_stable_sort;
use crate::listing::is_top;
use crate::listing::sort_entries;
use crate::listing::top_entries;
use crate::listing::Entry;
use crate::listing::SortBy;
use bytesize::ByteSize;
use std::io::Write;
use tabwriter::TabWriter;
use vstd::prelude::*;

verus! {

/// The text `bytesize` gives for a number of bytes, such as `2.5 MB`.
pub uninterp spec fn bytesize_text(size: u64) -> Seq<u8>;

/// The text `tabwriter` makes of a text with tabs in it.
pub uninterp spec fn tabwriter_text(text: Seq<u8>) -> Seq<u8>;

/// The text std makes of bytes that may not be valid UTF-8.
pub uninterp spec fn lossy_text(bytes: Seq<u8>) -> Seq<u8>;

/// Calls `ByteSize::b` and `to_string` on it, which goes by the `Display` of
/// `ByteSize`: a number and a unit, such as `12 B` or `1.5 KB`. The contract
/// gives the text a name and so claims that it depends on the size alone.
#[verifier::external_body]
fn human_size(size: u64) -> (text: Vec<u8>)
    ensures
        text@ == bytesize_text(size),
{
    ByteSize::b(size).to_string().into_bytes()
}

/// Calls `TabWriter::new` on an empty buffer, writes `text` into it, flushes
/// and takes the buffer back with `TabWriter::into_inner`: the text with its
/// tab-separated columns padded to a common width. The contract gives the
/// text a name and so claims that it depends on `text` alone. It also claims
/// that text always comes back: the writer hands on an error only when the
/// buffer it writes into gives one, and a `Vec<u8>` takes every write by
/// appending.
#[verifier::external_body]
fn align_columns(text: &Vec<u8>) -> (aligned: Option<Vec<u8>>)
    ensures
        aligned.is_some(),
        aligned.unwrap()@ == tabwriter_text(text@),
{
    let mut writer = TabWriter::new(vec![]);
    writer.write_all(text).ok()?;
    writer.flush().ok()?;
    writer.into_inner().ok()
}

/// Calls `String::from_utf8_lossy`: the same bytes where they are valid UTF-8,
/// with U+FFFD in place of each invalid sequence. The contract gives the text
/// a name and so claims that it depends on the bytes alone.
#[verifier::external_body]
fn lossy(bytes: &Vec<u8>) -> (text: Vec<u8>)
    ensures
        text@ == lossy_text(bytes@),
{
    String::from_utf8_lossy(bytes).into_owned().into_bytes()
}

/// `count` spaces.
pub open spec fn spaces(count: nat) -> Seq<u8> {
    Seq::new(count, |i: int| 32u8)
}

/// `text` with spaces in front, as many as it takes to reach `width` bytes.
pub open spec fn padded(text: Seq<u8>, width: nat) -> Seq<u8> {
    if text.len() >= width {
        text
    } else {
        spaces((width - text.len()) as nat) + text
    }
}

/// `text` with a second space put before every `" B"`, so that the unit of a
/// size in plain bytes ends where the two-letter units end.
pub open spec fn widened_unit(text: Seq<u8>) -> Seq<u8>
    decreases text.len(),
{
    if text.len() < 2 {
        text
    } else if text[0] == 32u8 && text[1] == 66u8 {
        seq![32u8, 32u8, 66u8] + widened_unit(text.skip(2))
    } else {
        seq![text[0]] + widened_unit(text.skip(1))
    }
}

/// The size column of a line: the readable size, at least ten bytes wide and
/// flush right.
pub open spec fn size_label(size: u64) -> Seq<u8> {
    padded(widened_unit(bytesize_text(size)), 10)
}

/// One line of a report.
pub open spec fn report_line(size: u64, label: Seq<u8>) -> Seq<u8> {
    size_label(size) + seq![9u8] + label + seq![10u8]
}

/// The path of `name` below `root`, joined as on Unix: a slash between the
/// two unless `root` is empty or ends in one, and `name` alone if it starts
/// with a slash.
pub open spec fn joined(root: Seq<u8>, name: Seq<u8>) -> Seq<u8> {
    if name.len() > 0 && name[0] == 47u8 {
        name
    } else if root.len() == 0 || root.last() == 47u8 {
        root + name
    } else {
        root + seq![47u8] + name
    }
}

/// The lines of a directory listing, one per entry, labelled with the entry's
/// path below `root`.
pub open spec fn usage_lines(root: Seq<u8>, listing: Seq<Entry>) -> Seq<u8>
    decreases listing.len(),
{
    if listing.len() == 0 {
        Seq::empty()
    } else {
        usage_lines(root, listing.drop_last()) + report_line(
            listing.last().size,
            lossy_text(joined(root, listing.last().name@)),
        )
    }
}

/// The line of ten dashes that parts the listing from the total.
pub open spec fn rule_line() -> Seq<u8> {
    seq![45u8, 45u8, 45u8, 45u8, 45u8, 45u8, 45u8, 45u8, 45u8, 45u8, 10u8]
}

/// The directory block before it is aligned: the listing, the rule if
/// anything was listed, and the total of the root.
pub open spec fn usage_text(root: Seq<u8>, total: u64, listing: Seq<Entry>) -> Seq<u8> {
    usage_lines(root, listing) + (if listing.len() > 0 {
        rule_line()
    } else {
        Seq::empty()
    }) + report_line(total, lossy_text(root))
}

/// The lines of an extension ranking, one per entry, labelled with the
/// extension.
pub open spec fn ranking_lines(listing: Seq<Entry>) -> Seq<u8>
    decreases listing.len(),
{
    if listing.len() == 0 {
        Seq::empty()
    } else {
        ranking_lines(listing.drop_last()) + report_line(
            listing.last().size,
            lossy_text(listing.last().name@),
        )
    }
}

/// A number in decimal digits.
pub open spec fn decimal(n: nat) -> Seq<u8>
    decreases n,
{
    if n < 10 {
        seq![(48 + n) as u8]
    } else {
        decimal(n / 10).push((48 + n % 10) as u8)
    }
}

/// The words `Top ` that open the heading of a ranking.
pub open spec fn heading_start() -> Seq<u8> {
    seq![84u8, 111u8, 112u8, 32u8]
}

/// The words ` file types by space usage:` that close the heading of a
/// ranking, with the line feed.
pub open spec fn heading_end() -> Seq<u8> {
    seq![
        32u8,
        102u8,
        105u8,
        108u8,
        101u8,
        32u8,
        116u8,
        121u8,
        112u8,
        101u8,
        115u8,
        32u8,
        98u8,
        121u8,
        32u8,
        115u8,
        112u8,
        97u8,
        99u8,
        101u8,
        32u8,
        117u8,
        115u8,
        97u8,
        103u8,
        101u8,
        58u8,
        10u8,
    ]
}

/// The heading of a ranking of `limit` extensions.
pub open spec fn ranking_heading(limit: nat) -> Seq<u8> {
    heading_start() + decimal(limit) + heading_end()
}

/// What becomes of an aligner's answer: its text, or the error that says the
/// report could not be written.
pub open spec fn written(aligned: Option<Vec<u8>>) -> Result<Vec<u8>, Error> {
    match aligned {
        Some(text) => Ok(text),
        None => Err(Error::OutputWrite),
    }
}

/// Appends `piece` to `text`.
pub fn append_bytes(text: &mut Vec<u8>, piece: &Vec<u8>)
    ensures
        final(text)@ == old(text)@ + piece@,
{
    let mut i: usize = 0;
    while i < piece.len()
        invariant
            i <= piece.len(),
            text@ == old(text)@ + piece@.subrange(0, i as int),
        decreases piece.len() - i,
    {
        text.push(piece[i]);
        i = i + 1;
        proof {
            assert(text@ =~= old(text)@ + piece@.subrange(0, i as int));
        }
    }
    proof {
        assert(piece@.subrange(0, piece.len() as int) =~= piece@);
    }
}

/// `text` flush right in a field of `width` bytes; longer text is left as
/// it is.
pub fn pad_left(text: &Vec<u8>, width: usize) -> (field: Vec<u8>)
    ensures
        field@ == padded(text@, width as nat),
{
    let mut field: Vec<u8> = Vec::new();
    if text.len() < width {
        let gap = width - text.len();
        let mut i: usize = 0;
        while i < gap
            invariant
                i <= gap,
                field@ == spaces(i as nat),
            decreases gap - i,
        {
            field.push(32);
            i = i + 1;
            proof {
                assert(field@ =~= spaces(i as nat));
            }
        }
    }
    proof {
        assert(Seq::<u8>::empty() + text@ =~= text@);
        assert(field@ =~= spaces(field@.len()));
    }
    append_bytes(&mut field, text);
    field
}

/// Puts a second space before every `" B"` in `text`.
pub fn widen_unit(text: &Vec<u8>) -> (wide: Vec<u8>)
    ensures
        wide@ == widened_unit(text@),
{
    let mut wide: Vec<u8> = Vec::new();
    let mut i: usize = 0;
    proof {
        assert(text@.skip(0) =~= text@);
    }
    while i < text.len()
        invariant
            i <= text.len(),
            wide@ + widened_unit(text@.skip(i as int)) == widened_unit(text@),
        decreases text.len() - i,
    {
        let ghost rest = text@.skip(i as int);
        let ghost before = wide@;
        if text.len() - i >= 2 && text[i] == 32 && text[i + 1] == 66 {
            wide.push(32);
            wide.push(32);
            wide.push(66);
            i = i + 2;
            proof {
                assert(rest.skip(2) =~= text@.skip(i as int));
                assert(wide@ =~= before + seq![32u8, 32u8, 66u8]);
                assert(wide@ + widened_unit(text@.skip(i as int)) =~= before + widened_unit(rest));
            }
        } else {
            wide.push(text[i]);
            i = i + 1;
            proof {
                assert(rest.skip(1) =~= text@.skip(i as int));
                assert(wide@ =~= before + seq![rest[0]]);
                if rest.len() < 2 {
                    assert(text@.skip(i as int).len() == 0);
                    assert(widened_unit(text@.skip(i as int)) =~= Seq::<u8>::empty());
                    assert(rest =~= seq![rest[0]]);
                }
                assert(wide@ + widened_unit(text@.skip(i as int)) =~= before + widened_unit(rest));
            }
        }
    }
    proof {
        assert(wide@ + Seq::<u8>::empty() =~= wide@);
    }
    wide
}

/// The size column for `size` bytes.
pub fn size_column(size: u64) -> (label: Vec<u8>)
    ensures
        label@ == size_label(size),
{
    let plain = human_size(size);
    let wide = widen_unit(&plain);
    pad_left(&wide, 10)
}

/// Appends the line for `size` and `label` to `text`.
pub fn push_line(text: &mut Vec<u8>, size: u64, label: &Vec<u8>)
    ensures
        final(text)@ == old(text)@ + report_line(size, label@),
{
    let column = size_column(size);
    append_bytes(text, &column);
    text.push(9);
    append_bytes(text, label);
    text.push(10);
    proof {
        assert(text@ =~= old(text)@ + report_line(size, label@));
    }
}

/// The path of `name` below `root`.
pub fn join_path(root: &Vec<u8>, name: &Vec<u8>) -> (path: Vec<u8>)
    ensures
        path@ == joined(root@, name@),
{
    let mut path: Vec<u8> = Vec::new();
    if name.len() > 0 && name[0] == 47 {
        append_bytes(&mut path, name);
    } else {
        append_bytes(&mut path, root);
        if root.len() > 0 && root[root.len() - 1] != 47 {
            path.push(47);
        }
        append_bytes(&mut path, name);
    }
    proof {
        assert(path@ =~= joined(root@, name@));
    }
    path
}

/// A number in decimal digits.
pub fn decimal_digits(n: usize) -> (digits: Vec<u8>)
    ensures
        digits@ == decimal(n as nat),
    decreases n,
{
    if n < 10 {
        let mut digits: Vec<u8> = Vec::new();
        digits.push(48 + n as u8);
        proof {
            assert(digits@ =~= decimal(n as nat));
        }
        digits
    } else {
        let mut digits = decimal_digits(n / 10);
        digits.push(48 + (n % 10) as u8);
        digits
    }
}

/// The directory block before it is aligned, for a listing that is already in
/// the order in which it is to be shown.
pub fn space_usage_text(root: &Vec<u8>, total: u64, listing: &Vec<Entry>) -> (text: Vec<u8>)
    ensures
        text@ == usage_text(root@, total, listing@),
{
    let mut text: Vec<u8> = Vec::new();
    let mut i: usize = 0;
    while i < listing.len()
        invariant
            i <= listing.len(),
            text@ == usage_lines(root@, listing@.subrange(0, i as int)),
        decreases listing.len() - i,
    {
        let path = join_path(root, &listing[i].name);
        let label = lossy(&path);
        push_line(&mut text, listing[i].size, &label);
        i = i + 1;
        proof {
            let shown = listing@.subrange(0, i as int);
            assert(shown.drop_last() =~= listing@.subrange(0, i - 1));
            assert(shown.last() == listing@[i - 1]);
        }
    }
    proof {
        assert(listing@.subrange(0, listing.len() as int) =~= listing@);
    }
    if listing.len() > 0 {
        let rule: Vec<u8> = vec![45, 45, 45, 45, 45, 45, 45, 45, 45, 45, 10];
        proof {
            assert(rule@ =~= rule_line());
        }
        append_bytes(&mut text, &rule);
    }
    let label = lossy(root);
    push_line(&mut text, total, &label);
    proof {
        assert(text@ =~= usage_text(root@, total, listing@));
    }
    text
}

/// The lines of an extension ranking before they are aligned, for a listing
/// that is already in the order in which it is to be shown.
pub fn ranking_text(listing: &Vec<Entry>) -> (text: Vec<u8>)
    ensures
        text@ == ranking_lines(listing@),
{
    let mut text: Vec<u8> = Vec::new();
    let mut i: usize = 0;
    while i < listing.len()
        invariant
            i <= listing.len(),
            text@ == ranking_lines(listing@.subrange(0, i as int)),
        decreases listing.len() - i,
    {
        let label = lossy(&listing[i].name);
        push_line(&mut text, listing[i].size, &label);
        i = i + 1;
        proof {
            let shown = listing@.subrange(0, i as int);
            assert(shown.drop_last() =~= listing@.subrange(0, i - 1));
            assert(shown.last() == listing@[i - 1]);
        }
    }
    proof {
        assert(listing@.subrange(0, listing.len() as int) =~= listing@);
    }
    text
}

/// The heading of a ranking of `limit` extensions.
pub fn heading(limit: usize) -> (text: Vec<u8>)
    ensures
        text@ == ranking_heading(limit as nat),
{
    let mut text: Vec<u8> = vec![84, 111, 112, 32];
    let digits = decimal_digits(limit);
    let end: Vec<u8> = vec![
        32, 102, 105, 108, 101, 32, 116, 121, 112, 101, 115, 32, 98, 121, 32, 115, 112, 97, 99,
        101, 32, 117, 115, 97, 103, 101, 58, 10,
    ];
    proof {
        assert(text@ =~= heading_start());
        assert(end@ =~= heading_end());
    }
    append_bytes(&mut text, &digits);
    append_bytes(&mut text, &end);
    text
}

/// Turns an aligner's answer into the report or the error.
pub fn finish(aligned: Option<Vec<u8>>) -> (report: Result<Vec<u8>, Error>)
    ensures
        report == written(aligned),
{
    match aligned {
        Some(text) => Ok(text),
        None => Err(Error::OutputWrite),
    }
}

/// Aligns the columns of a block of lines. The aligner works in memory, so
/// the block always comes back.
pub fn align(text: &Vec<u8>) -> (report: Result<Vec<u8>, Error>)
    ensures
        report.is_ok(),
        report.unwrap()@ == tabwriter_text(text@),
{
    finish(align_columns(text))
}

/// `text` is the directory block for `listing`: its entries in the order of
/// `by`, the rule and the total, with the columns aligned.
pub open spec fn is_usage_block(
    text: Seq<u8>,
    root: Seq<u8>,
    total: u64,
    listing: Seq<Entry>,
    by: SortBy,
    reverse: bool,
) -> bool {
    exists|sorted: Seq<Entry>|
        #![trigger is_stable_sort(sorted, listing, by, reverse)]
        is_stable_sort(sorted, listing, by, reverse) && text == tabwriter_text(
            usage_text(root, total, sorted),
        )
}

/// `text` is the ranking of the `limit` largest entries of `listing`: the
/// heading, the chosen entries with the columns aligned, and an empty line.
pub open spec fn is_ranking_block(
    text: Seq<u8>,
    listing: Seq<Entry>,
    limit: nat,
    reverse: bool,
) -> bool {
    exists|top: Seq<Entry>|
        #![trigger is_top(top, listing, limit, reverse)]
        is_top(top, listing, limit, reverse) && text == ranking_heading(limit) + tabwriter_text(
            ranking_lines(top),
        ) + seq![10u8]
}

/// The directory block of a report: the entries of `listing` in the order of
/// `by`, upwards, or downwards if `reverse` is set, then the total of the
/// root. No listing, name or size makes it fail.
pub fn usage_block(
    root: &Vec<u8>,
    total: u64,
    listing: Vec<Entry>,
    by: SortBy,
    reverse: bool,
) -> (block: Result<Vec<u8>, Error>)
    ensures
        block.is_ok(),
        is_usage_block(block.unwrap()@, root@, total, listing@, by, reverse),
{
    let sorted = sort_entries(listing, by, reverse);
    let text = space_usage_text(root, total, &sorted);
    align(&text)
}

/// The extension block of a report: the heading, the `limit` largest entries
/// of `listing`, largest first, or smallest of them first if `reverse` is set,
/// and an empty line. No listing or limit makes it fail.
pub fn ranking_block(listing: Vec<Entry>, limit: usize, reverse: bool) -> (block: Result<
    Vec<u8>,
    Error,
>)
    ensures
        block.is_ok(),
        is_ranking_block(block.unwrap()@, listing@, limit as nat, reverse),
{
    let top = top_entries(listing, limit, reverse);
    let lines = ranking_text(&top);
    match align(&lines) {
        Ok(aligned) => {
            let mut block = heading(limit);
            append_bytes(&mut block, &aligned);
            block.push(10);
            proof {
                assert(block@ =~= ranking_heading(limit as nat) + tabwriter_text(
                    ranking_lines(top@),
                ) + seq![10u8]);
            }
            Ok(block)
        },
        Err(e) => Err(e),
    }
}

} // verus!
