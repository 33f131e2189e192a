//! The log of a scan: one block of text per duplicate group.

use crate::digest::{digest_hex, format_digest};
use crate::entry::{entry_views, Entry, EntryView};
use crate::index::{group_views, DuplicateGroup, GroupView};
use vstd::prelude::*;
use vstd::string::StrSliceExecFns;
use vstd::string::StringExecFns;

verus! {

/// The text that `{:?}` prints for the string `text`: the string in double
/// quotes, with the characters escaped that cannot stand in a string literal.
pub uninterp spec fn debug_quoted(text: Seq<char>) -> Seq<char>;

/// Formats `name` with `{:?}`, as `std::fmt::Debug` for `str` prints it. What
/// is printed depends on the characters of `name` alone; the contract says no
/// more than that: the result is the value named [`debug_quoted`].
#[verifier::external_body]
fn quote_name(name: &str) -> (quoted: String)
    ensures
        quoted@ == debug_quoted(name@),
{
    format!("{:?}", name)
}

/// The four characters with which a verbatim path begins on Windows.
pub open spec fn verbatim_prefix() -> Seq<char> {
    seq!['\\', '\\', '?', '\\']
}

/// A path without the verbatim prefix, if it has one.
pub open spec fn normalised_path(path: Seq<char>) -> Seq<char> {
    if verbatim_prefix().is_prefix_of(path) {
        path.skip(4)
    } else {
        path
    }
}

/// Takes the verbatim prefix `\\?\` from a path that begins with it, and
/// leaves every other path as it is.
pub fn normalise_paths(path: String) -> (shown: String)
    ensures
        shown@ == normalised_path(path@),
{
    let text = path.as_str();
    let len = text.unicode_len();
    if len >= 4 && text.get_char(0) == '\\' && text.get_char(1) == '\\' && text.get_char(2) == '?'
        && text.get_char(3) == '\\' {
        assert(path@.subrange(0, 4) =~= verbatim_prefix());
        let rest = text.substring_char(4, len);
        assert(rest@ =~= path@.skip(4));
        rest.to_owned()
    } else {
        proof {
            if verbatim_prefix().is_prefix_of(path@) {
                assert(path@.subrange(0, 4)[0] == '\\');
                assert(path@.subrange(0, 4)[1] == '\\');
                assert(path@.subrange(0, 4)[2] == '?');
                assert(path@.subrange(0, 4)[3] == '\\');
            }
        }
        path
    }
}

/// A path as the log shows it.
pub open spec fn shown_path(path: Seq<char>, strip_verbatim: bool) -> Seq<char> {
    if strip_verbatim {
        normalised_path(path)
    } else {
        path
    }
}

/// The line of the log for one file of a group.
pub open spec fn path_line(path: Seq<char>, strip_verbatim: bool) -> Seq<char> {
    "  "@ + shown_path(path, strip_verbatim) + "\n"@
}

/// The lines of the log for the files `entries`, in order.
pub open spec fn path_lines(entries: Seq<EntryView>, strip_verbatim: bool) -> Seq<char>
    decreases entries.len(),
{
    if entries.len() == 0 {
        Seq::empty()
    } else {
        path_lines(entries.drop_last(), strip_verbatim) + path_line(
            entries.last().path,
            strip_verbatim,
        )
    }
}

/// The name that stands for a group in its header: that of its first file.
pub open spec fn representative(group: GroupView) -> Seq<char> {
    if group.entries.len() > 0 {
        group.entries[0].name
    } else {
        Seq::empty()
    }
}

/// The header of a group: the quoted name of its first file and the hash
/// that its files share.
pub open spec fn header_line(group: GroupView) -> Seq<char> {
    debug_quoted(representative(group)) + " (with hash "@ + digest_hex(group.digest) + "):\n"@
}

/// The block of the log for one group: its header, then one line per file.
pub open spec fn group_block(group: GroupView, strip_verbatim: bool) -> Seq<char> {
    header_line(group) + path_lines(group.entries, strip_verbatim)
}

/// The blocks of the groups `groups`, in order.
pub open spec fn group_blocks(groups: Seq<GroupView>, strip_verbatim: bool) -> Seq<char>
    decreases groups.len(),
{
    if groups.len() == 0 {
        Seq::empty()
    } else {
        group_blocks(groups.drop_last(), strip_verbatim) + group_block(
            groups.last(),
            strip_verbatim,
        )
    }
}

/// The text of the log: one block per group, or, where there is no group, a
/// line that says so.
pub open spec fn log_text(groups: Seq<GroupView>, strip_verbatim: bool) -> Seq<char> {
    if groups.len() == 0 {
        "No duplicates found\n"@
    } else {
        group_blocks(groups, strip_verbatim)
    }
}

fn write_paths(text: &mut String, entries: &Vec<Entry>, strip_verbatim: bool)
    ensures
        final(text)@ == old(text)@ + path_lines(entry_views(entries@), strip_verbatim),
{
    let ghost start = text@;
    let ghost files = entry_views(entries@);
    let mut i: usize = 0;
    assert(start + path_lines(files.take(0), strip_verbatim) =~= start);
    while i < entries.len()
        invariant
            i <= entries@.len(),
            files == entry_views(entries@),
            text@ == start + path_lines(files.take(i as int), strip_verbatim),
        decreases entries@.len() - i,
    {
        let ghost before = text@;
        let shown = if strip_verbatim {
            normalise_paths(entries[i].path.clone())
        } else {
            entries[i].path.clone()
        };
        text.append("  ");
        text.append(shown.as_str());
        text.append("\n");
        proof {
            assert(files.take(i + 1).drop_last() =~= files.take(i as int));
            assert(files.take(i + 1).last() == files[i as int]);
            assert(text@ =~= before + path_line(files[i as int].path, strip_verbatim));
            assert(text@ =~= start + path_lines(files.take(i + 1), strip_verbatim));
        }
        i = i + 1;
    }
    assert(files.take(i as int) =~= files);
}

fn write_group(text: &mut String, group: &DuplicateGroup, strip_verbatim: bool)
    ensures
        final(text)@ == old(text)@ + group_block(group@, strip_verbatim),
{
    let ghost start = text@;
    let quoted = if group.entries.len() > 0 {
        quote_name(group.entries[0].name.as_str())
    } else {
        quote_name("")
    };
    proof {
        reveal_strlit("");
        if group.entries.len() == 0 {
            assert(""@ =~= Seq::<char>::empty());
        }
    }
    let hex = format_digest(group.digest);
    text.append(quoted.as_str());
    text.append(" (with hash ");
    text.append(hex.as_str());
    text.append("):\n");
    assert(text@ =~= start + header_line(group@));
    write_paths(text, &group.entries, strip_verbatim);
    assert(text@ =~= start + group_block(group@, strip_verbatim));
}

/// Writes the log of a scan. Every group gets a block: a header with the
/// quoted name of its first file and the hash, then one indented line per
/// file. With `strip_verbatim` the verbatim prefix is taken from the paths,
/// as Windows callers want. Without any group the log says that no
/// duplicates were found.
pub fn format_log(groups: &Vec<DuplicateGroup>, strip_verbatim: bool) -> (text: String)
    ensures
        text@ == log_text(group_views(groups@), strip_verbatim),
        groups@.len() == 0 ==> text@ == "No duplicates found\n"@,
{
    if groups.len() == 0 {
        return "No duplicates found\n".to_owned();
    }
    let ghost all = group_views(groups@);
    let mut text = String::new();
    let mut i: usize = 0;
    assert(group_blocks(all.take(0), strip_verbatim) =~= Seq::empty());
    while i < groups.len()
        invariant
            i <= groups@.len(),
            all == group_views(groups@),
            text@ == group_blocks(all.take(i as int), strip_verbatim),
        decreases groups@.len() - i,
    {
        proof {
            assert(all.take(i + 1).drop_last() =~= all.take(i as int));
            assert(all.take(i + 1).last() == all[i as int]);
        }
        write_group(&mut text, &groups[i], strip_verbatim);
        i = i + 1;
    }
    assert(all.take(i as int) =~= all);
    text
}

/// The character that stands for a decimal digit.
pub open spec fn digit_char(digit: nat) -> char {
    crate::digest::hex_char(digit)
}

/// The decimal digits of `value`.
pub open spec fn decimal(value: nat) -> Seq<char>
    decreases value,
{
    if value < 10 {
        seq![digit_char(value)]
    } else {
        decimal(value / 10).push(digit_char(value % 10))
    }
}

/// What the caller is told of the number of groups found.
pub open spec fn summary_text(count: nat) -> Seq<char> {
    "Found "@ + decimal(count) + " duplicates"@
}

fn write_decimal(value: usize) -> (text: String)
    ensures
        text@ == decimal(value as nat),
    decreases value,
{
    if value < 10 {
        let digit: u8 = value as u8;
        let text = crate::digest::hex_str(digit).to_owned();
        assert(text@ =~= decimal(value as nat));
        text
    } else {
        let mut text = write_decimal(value / 10);
        let digit: u8 = (value % 10) as u8;
        text.append(crate::digest::hex_str(digit));
        assert(text@ =~= decimal(value as nat));
        text
    }
}

/// Says how many duplicate groups a scan has found.
pub fn format_summary(count: usize) -> (text: String)
    ensures
        text@ == summary_text(count as nat),
{
    let mut text = "Found ".to_owned();
    let digits = write_decimal(count);
    text.append(digits.as_str());
    text.append(" duplicates");
    text
}

} // verus!
