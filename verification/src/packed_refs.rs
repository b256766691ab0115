//! Reading the tool's packed reference file: each line that records a
//! local or remote branch yields its short name, with the remote's own
//! name stripped; every other line is passed over.

use vstd::prelude::*;
use vstd::string::{StrSliceExecFns, StringExecFns};

use crate::text::{find_char, first_char_idx, id_list_of, is_char_prefix, parse_id_lines, str_starts_with};

verus! {

/// The tail of a remote reference after its remote's name: everything
/// past the first separator, or the text unchanged when there is none.
pub open spec fn remove_remote_spec(s: Seq<char>) -> Seq<char> {
    if first_char_idx(s, '/') >= 0 {
        s.skip(first_char_idx(s, '/') + 1)
    } else {
        s
    }
}

/// Strips the leading remote name from a reference part.
pub fn remove_remote(ref_part: String) -> (r: String)
    ensures
        r@ == remove_remote_spec(ref_part@),
{
    match find_char(ref_part.as_str(), '/') {
        Some(i) => {
            let n = ref_part.as_str().unicode_len();
            let tail = ref_part.as_str().substring_char(i + 1, n);
            let owned = String::from_str(tail);
            proof {
                assert(owned@ =~= remove_remote_spec(ref_part@));
            }
            owned
        },
        None => ref_part,
    }
}

/// What one line of the packed reference file records: the branch name a
/// local or remote entry carries, or nothing. A recording line is a
/// word, one space, and a fully qualified reference name.
pub open spec fn packed_line_ref(line: Seq<char>) -> Option<Seq<char>> {
    if first_char_idx(line, ' ') >= 1 {
        let rest = line.skip(first_char_idx(line, ' ') + 1);
        if is_char_prefix("refs/heads/"@, rest) {
            Some(rest.skip(11))
        } else if is_char_prefix("refs/remotes/"@, rest) {
            Some(remove_remote_spec(rest.skip(13)))
        } else {
            None
        }
    } else {
        None
    }
}

/// The branch names of the first `n` lines, in order.
pub open spec fn packed_refs_upto(lines: Seq<Seq<char>>, n: int) -> Seq<Seq<char>>
    decreases n,
{
    if n <= 0 {
        Seq::empty()
    } else {
        packed_refs_upto(lines, n - 1) + (match packed_line_ref(lines[n - 1]) {
            Some(name) => seq![name],
            None => Seq::empty(),
        })
    }
}

/// Every branch name the packed reference file records, in file order.
pub open spec fn packed_refs_of(text: Seq<char>) -> Seq<Seq<char>> {
    packed_refs_upto(id_list_of(text), id_list_of(text).len() as int)
}

fn parse_packed_line(line: &String) -> (r: Option<String>)
    ensures
        match r {
            Some(name) => packed_line_ref(line@) matches Some(v) && name@ == v,
            None => packed_line_ref(line@) is None,
        },
{
    match find_char(line.as_str(), ' ') {
        Some(i) => {
            if i == 0 {
                return None;
            }
            let n = line.as_str().unicode_len();
            let rest = line.as_str().substring_char(i + 1, n);
            proof {
                assert(rest@ =~= line@.skip(first_char_idx(line@, ' ') + 1));
            }
            if str_starts_with(rest, "refs/heads/") {
                proof {
                    reveal_strlit("refs/heads/");
                }
                let name = String::from_str(rest.substring_char(11, rest.unicode_len()));
                proof {
                    assert(name@ =~= rest@.skip(11));
                }
                Some(name)
            } else if str_starts_with(rest, "refs/remotes/") {
                proof {
                    reveal_strlit("refs/remotes/");
                }
                let tail = String::from_str(rest.substring_char(13, rest.unicode_len()));
                proof {
                    assert(tail@ =~= rest@.skip(13));
                }
                Some(remove_remote(tail))
            } else {
                None
            }
        },
        None => None,
    }
}

/// Reads the branch names out of the packed reference file's text: one
/// per recording line, in order.
pub fn load_packed_refs(text: &str) -> (r: Vec<String>)
    ensures
        r.deep_view() == packed_refs_of(text@),
{
    let lines = parse_id_lines(text);
    let ghost lv = lines.deep_view();
    let mut out: Vec<String> = Vec::new();
    let mut i: usize = 0;
    proof {
        assert(out.deep_view() =~= packed_refs_upto(lv, 0));
    }
    while i < lines.len()
        invariant
            lv == lines.deep_view(),
            lv.len() == lines@.len(),
            i <= lines@.len(),
            out.deep_view() == packed_refs_upto(lv, i as int),
        decreases lines.len() - i,
    {
        let ghost out0 = out.deep_view();
        match parse_packed_line(&lines[i]) {
            Some(name) => {
                proof {
                    assert(lines@[i as int]@ == lv[i as int]);
                }
                out.push(name);
                proof {
                    assert(out.deep_view() =~= out0 + seq![
                        packed_line_ref(lv[i as int]).unwrap(),
                    ]);
                }
            },
            None => {
                proof {
                    assert(lines@[i as int]@ == lv[i as int]);
                    assert(out.deep_view() =~= out0 + Seq::<Seq<char>>::empty());
                }
            },
        }
        i = i + 1;
    }
    out
}

} // verus!
