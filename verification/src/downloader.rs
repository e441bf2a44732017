//! Decisions of a single download with resumable `.part` files.

use vstd::prelude::*;
use crate::error::AlbumError;
use crate::text::{chars_of, dec_digits, push_decimal, push_str};

verus! {

/// How a download went.
#[derive(Debug, Clone, Copy)]
pub struct DownloadOutcome {
    pub bytes_downloaded: u64,
    pub resumed_from: u64,
}

/// What to do with a partial file left by an earlier attempt.
#[derive(Debug, Clone, Copy, PartialEq, Eq, Structural)]
pub enum PartAction {
    /// The partial file is complete: move it into place without downloading.
    Finalize,
    /// Ask the server to resume at this offset and append to the partial file.
    Resume(u64),
    /// Download from the start; remove the partial file first when there is one.
    Restart { discard_part: bool },
}

/// The action for a partial file of length `part_len` (`None`: there is none) when the file
/// is expected to have `expected_size` bytes (0: unknown).
pub open spec fn part_action_spec(part_len: Option<u64>, expected_size: u64) -> PartAction {
    match part_len {
        Some(m) => if expected_size > 0 && m == expected_size {
            PartAction::Finalize
        } else if expected_size > 0 && m < expected_size {
            PartAction::Resume(m)
        } else {
            PartAction::Restart { discard_part: true }
        },
        None => PartAction::Restart { discard_part: false },
    }
}

/// Decides how to treat a partial file left by an earlier attempt.
pub fn part_action(part_len: Option<u64>, expected_size: u64) -> (r: PartAction)
    ensures
        r == part_action_spec(part_len, expected_size),
{
    match part_len {
        Some(m) => {
            if expected_size > 0 && m == expected_size {
                PartAction::Finalize
            } else if expected_size > 0 && m < expected_size {
                PartAction::Resume(m)
            } else {
                PartAction::Restart { discard_part: true }
            }
        },
        None => PartAction::Restart { discard_part: false },
    }
}

/// The partial-file decision, case by case: with a known size `s` (non-zero), a partial
/// file shorter than `s` is resumed at its own length, one of exactly `s` bytes is moved into
/// place, and a longer one is thrown away; with an unknown size (0) any partial file is
/// thrown away; with no partial file the download starts afresh.
pub proof fn law_part_action_cases(m: u64, s: u64)
    ensures
        0 < s && m < s ==> part_action_spec(Some(m), s) == PartAction::Resume(m),
        0 < s && m == s ==> part_action_spec(Some(m), s) == PartAction::Finalize,
        (s == 0 || m > s) ==> part_action_spec(Some(m), s) == (PartAction::Restart { discard_part: true }),
        part_action_spec(None, s) == (PartAction::Restart { discard_part: false }),
{
}

/// A file name has an extension when a `.` follows its first character (`..` has none), as
/// `std::path::Path::extension` reads names.
pub open spec fn has_extension(name: Seq<char>) -> bool {
    name != seq!['.', '.'] && exists|i: int| 1 <= i < name.len() && name[i] == '.'
}

/// The name of the partial file of a download to `name`: the extension gets `.part`
/// appended, and a name without extension gets an empty one first (`photo.jpg` becomes
/// `photo.jpg.part`, `README` becomes `README..part`).
pub open spec fn part_name_spec(name: Seq<char>) -> Seq<char> {
    if has_extension(name) {
        name + ".part"@
    } else {
        name + "..part"@
    }
}

/// A name `<stem>.<ext>` (a stem that is not empty) gets `.part` appended, so its extension
/// becomes `<ext>.part`; a name with no dot gets `..part`.
pub proof fn law_part_name_appends(stem: Seq<char>, ext: Seq<char>, plain: Seq<char>)
    ensures
        stem.len() > 0 && !(stem == seq!['.'] && ext.len() == 0) ==> part_name_spec(stem + seq!['.'] + ext) == stem
            + seq!['.'] + ext + ".part"@,
        !plain.contains('.') ==> part_name_spec(plain) == plain + "..part"@,
{
    let n = stem + seq!['.'] + ext;
    if stem.len() > 0 && !(stem == seq!['.'] && ext.len() == 0) {
        assert(n[stem.len() as int] == '.');
        assert(n != seq!['.', '.']) by {
            if n =~= seq!['.', '.'] {
                assert(n.len() == stem.len() + 1 + ext.len());
                assert(stem.len() == 1 && ext.len() == 0);
                assert(stem[0] == n[0]);
                assert(stem =~= seq!['.']);
            }
        }
    }
    if !plain.contains('.') {
        assert(!has_extension(plain)) by {
            if exists|i: int| 1 <= i < plain.len() && plain[i] == '.' {
                let i = choose|i: int| 1 <= i < plain.len() && plain[i] == '.';
                assert(plain.contains('.'));
            }
            if plain == seq!['.', '.'] {
                assert(plain[0] == '.');
            }
        }
    }
}

/// The file name that a download to `name` is written to before it is complete.
pub fn part_file_name(name: &str) -> (r: String)
    ensures
        r@ == part_name_spec(name@),
{
    let cs = chars_of(name);
    let n = cs.len();
    let double_dot = n == 2 && cs[0] == '.' && cs[1] == '.';
    let mut found = false;
    let mut i: usize = 1;
    while i < n
        invariant
            1 <= i,
            n == cs@.len(),
            found <==> exists|j: int| 1 <= j < i && j < n && cs@[j] == '.',
        decreases n - i,
    {
        if cs[i] == '.' {
            found = true;
        }
        i = i + 1;
    }
    proof {
        if double_dot {
            assert(cs@ =~= seq!['.', '.']);
        } else {
            assert(cs@ != seq!['.', '.']) by {
                if cs@ =~= seq!['.', '.'] {
                    assert(cs@.len() == 2 && cs@[0] == '.' && cs@[1] == '.');
                }
            }
        }
    }
    let mut out = String::new();
    push_str(&mut out, name);
    if found && !double_dot {
        push_str(&mut out, ".part");
    } else {
        push_str(&mut out, "..part");
    }
    out
}

/// The error for a download whose size is not the expected one.
pub open spec fn size_mismatch_message(expected: u64, written: u64) -> Seq<char> {
    "下载尺寸不一致: 期望 "@ + dec_digits(expected as nat) + "，实得 "@ + dec_digits(written as nat)
}

/// Checks the size of a finished download: when a size is expected (non-zero), what was
/// written must have exactly that size.
pub fn check_written(expected: u64, written: u64) -> (r: Result<(), AlbumError>)
    ensures
        (expected > 0 && written != expected) ==> (r matches Err(AlbumError::Ftp(m)) && m@
            == size_mismatch_message(expected, written)),
        !(expected > 0 && written != expected) ==> r is Ok,
{
    if expected > 0 && written != expected {
        let mut m = String::new();
        push_str(&mut m, "下载尺寸不一致: 期望 ");
        push_decimal(&mut m, expected);
        push_str(&mut m, "，实得 ");
        push_decimal(&mut m, written);
        assert(m@ =~= size_mismatch_message(expected, written));
        Err(AlbumError::Ftp(m))
    } else {
        Ok(())
    }
}

} // verus!
