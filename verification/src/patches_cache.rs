//! The patch disk cache: one file per repository, holding a serialized
//! mapping from diff key to its ordered patch records. The library frames
//! the file content itself — every field length-prefixed with nine fixed
//! decimal digits — so that writing and reading back are proved inverse;
//! the surrounding application only moves the framed text to and from the
//! platform cache directory.

use vstd::prelude::*;
use vstd::string::{StrSliceExecFns, StringExecFns};

use crate::text::{
    digit_of, fixed_digits, is_digit, lemma_fixed_digits_round_trip, lemma_fixed_digits_shape,
    parse_digits, pow10, push_fixed_digits,
};

verus! {

/// One patch record: which file the diff renames from and to.
pub struct Patch {
    pub old_file: String,
    pub new_file: String,
}

/// Spec-level image of a `Patch`.
#[verifier::ext_equal]
pub ghost struct PatchV {
    pub old_file: Seq<char>,
    pub new_file: Seq<char>,
}

impl DeepView for Patch {
    type V = PatchV;

    open spec fn deep_view(&self) -> PatchV {
        PatchV { old_file: self.old_file.deep_view(), new_file: self.new_file.deep_view() }
    }
}

/// The width of every length prefix, in decimal digits.
pub open spec fn len_width() -> nat {
    9
}

/// The largest representable field length.
pub open spec fn len_limit() -> nat {
    pow10(len_width())
}

/// A field short enough for its length prefix.
pub open spec fn str_ok(s: Seq<char>) -> bool {
    s.len() < len_limit()
}

/// A patch whose fields fit their prefixes.
pub open spec fn patch_ok(p: PatchV) -> bool {
    str_ok(p.old_file) && str_ok(p.new_file)
}

/// A whole mapping that the frame can carry.
pub open spec fn entries_ok(es: Seq<(Seq<char>, Seq<PatchV>)>) -> bool {
    &&& es.len() < len_limit()
    &&& forall|i: int|
        0 <= i < es.len() ==> str_ok((#[trigger] es[i]).0) && es[i].1.len() < len_limit() && (
        forall|j: int| 0 <= j < es[i].1.len() ==> patch_ok(#[trigger] es[i].1[j]))
}

/// One framed field: its length in nine digits, then its characters.
pub open spec fn enc_str(s: Seq<char>) -> Seq<char> {
    fixed_digits(s.len(), len_width()) + s
}

/// One framed patch: both fields in order.
pub open spec fn enc_patch(p: PatchV) -> Seq<char> {
    enc_str(p.old_file) + enc_str(p.new_file)
}

/// The framed patches from position `k` on.
pub open spec fn enc_patches_from(ps: Seq<PatchV>, k: int) -> Seq<char>
    decreases ps.len() - k,
{
    if 0 <= k < ps.len() {
        enc_patch(ps[k]) + enc_patches_from(ps, k + 1)
    } else {
        Seq::empty()
    }
}

/// One framed entry: the key, the patch count, the patches.
pub open spec fn enc_entry(e: (Seq<char>, Seq<PatchV>)) -> Seq<char> {
    enc_str(e.0) + fixed_digits(e.1.len(), len_width()) + enc_patches_from(e.1, 0)
}

/// The framed entries from position `k` on.
pub open spec fn enc_entries_from(es: Seq<(Seq<char>, Seq<PatchV>)>, k: int) -> Seq<char>
    decreases es.len() - k,
{
    if 0 <= k < es.len() {
        enc_entry(es[k]) + enc_entries_from(es, k + 1)
    } else {
        Seq::empty()
    }
}

/// The whole framed mapping: the entry count, then every entry.
pub open spec fn enc_map(es: Seq<(Seq<char>, Seq<PatchV>)>) -> Seq<char> {
    fixed_digits(es.len(), len_width()) + enc_entries_from(es, 0)
}

/// Reads a nine-digit count at position `i`.
pub open spec fn dec_num_at(s: Seq<char>, i: int) -> Option<(nat, int)> {
    if 0 <= i && i + len_width() <= s.len() && (forall|k: int|
        i <= k < i + len_width() ==> is_digit(#[trigger] s[k])) {
        Some((parse_digits(s.subrange(i, i + len_width() as int)), i + len_width() as int))
    } else {
        None
    }
}

/// Reads one framed field at position `i`.
pub open spec fn dec_str_at(s: Seq<char>, i: int) -> Option<(Seq<char>, int)> {
    match dec_num_at(s, i) {
        None => None,
        Some((n, j)) => if j + n <= s.len() {
            Some((s.subrange(j, j + n as int), j + n as int))
        } else {
            None
        },
    }
}

/// Reads one framed patch at position `i`.
pub open spec fn dec_patch_at(s: Seq<char>, i: int) -> Option<(PatchV, int)> {
    match dec_str_at(s, i) {
        None => None,
        Some((of, j)) => match dec_str_at(s, j) {
            None => None,
            Some((nf, j2)) => Some((PatchV { old_file: of, new_file: nf }, j2)),
        },
    }
}

/// Reads `cnt` framed patches from position `i`.
pub open spec fn dec_patches_at(s: Seq<char>, i: int, cnt: nat) -> Option<(Seq<PatchV>, int)>
    decreases cnt,
{
    if cnt == 0 {
        Some((Seq::empty(), i))
    } else {
        match dec_patch_at(s, i) {
            None => None,
            Some((p, j)) => match dec_patches_at(s, j, (cnt - 1) as nat) {
                None => None,
                Some((ps, j2)) => Some((seq![p] + ps, j2)),
            },
        }
    }
}

/// Reads one framed entry at position `i`.
pub open spec fn dec_entry_at(s: Seq<char>, i: int) -> Option<((Seq<char>, Seq<PatchV>), int)> {
    match dec_str_at(s, i) {
        None => None,
        Some((key, j)) => match dec_num_at(s, j) {
            None => None,
            Some((cnt, j2)) => match dec_patches_at(s, j2, cnt) {
                None => None,
                Some((ps, j3)) => Some(((key, ps), j3)),
            },
        },
    }
}

/// Reads `cnt` framed entries from position `i`.
pub open spec fn dec_entries_at(s: Seq<char>, i: int, cnt: nat) -> Option<
    (Seq<(Seq<char>, Seq<PatchV>)>, int),
>
    decreases cnt,
{
    if cnt == 0 {
        Some((Seq::empty(), i))
    } else {
        match dec_entry_at(s, i) {
            None => None,
            Some((e, j)) => match dec_entries_at(s, j, (cnt - 1) as nat) {
                None => None,
                Some((es, j2)) => Some((seq![e] + es, j2)),
            },
        }
    }
}

/// Reads a whole framed mapping; anything malformed, truncated or
/// trailing yields nothing.
pub open spec fn dec_map(s: Seq<char>) -> Option<Seq<(Seq<char>, Seq<PatchV>)>> {
    match dec_num_at(s, 0) {
        None => None,
        Some((cnt, j)) => match dec_entries_at(s, j, cnt) {
            None => None,
            Some((es, j2)) => if j2 == s.len() {
                Some(es)
            } else {
                None
            },
        },
    }
}

proof fn lemma_dec_num_of_enc(s: Seq<char>, i: int, n: nat)
    requires
        0 <= i,
        i + len_width() <= s.len(),
        s.subrange(i, i + len_width() as int) == fixed_digits(n, len_width()),
        n < len_limit(),
    ensures
        dec_num_at(s, i) == Some((n, i + len_width() as int)),
{
    lemma_fixed_digits_shape(n, len_width());
    assert forall|k: int| i <= k < i + len_width() implies is_digit(#[trigger] s[k]) by {
        assert(s[k] == s.subrange(i, i + len_width() as int)[k - i]);
        assert(is_digit(fixed_digits(n, len_width())[k - i]));
    }
    lemma_fixed_digits_round_trip(n, len_width());
}

proof fn lemma_dec_str_of_enc(s: Seq<char>, i: int, v: Seq<char>)
    requires
        0 <= i,
        i + enc_str(v).len() <= s.len(),
        s.subrange(i, i + enc_str(v).len() as int) == enc_str(v),
        str_ok(v),
    ensures
        dec_str_at(s, i) == Some((v, i + enc_str(v).len() as int)),
{
    lemma_fixed_digits_shape(v.len(), len_width());
    let w = len_width() as int;
    assert(enc_str(v).len() == w + v.len());
    assert(s.subrange(i, i + w) =~= enc_str(v).subrange(0, w));
    assert(enc_str(v).subrange(0, w) =~= fixed_digits(v.len(), len_width()));
    lemma_dec_num_of_enc(s, i, v.len());
    assert(s.subrange(i + w, i + w + v.len() as int) =~= enc_str(v).subrange(
        w,
        w + v.len() as int,
    ));
    assert(enc_str(v).subrange(w, w + v.len() as int) =~= v);
}

proof fn lemma_dec_patch_of_enc(s: Seq<char>, i: int, p: PatchV)
    requires
        0 <= i,
        i + enc_patch(p).len() <= s.len(),
        s.subrange(i, i + enc_patch(p).len() as int) == enc_patch(p),
        patch_ok(p),
    ensures
        dec_patch_at(s, i) == Some((p, i + enc_patch(p).len() as int)),
{
    let a = enc_str(p.old_file);
    let b = enc_str(p.new_file);
    assert(enc_patch(p).len() == (a.len() + b.len()) as int);
    assert(s.subrange(i, i + a.len() as int) =~= enc_patch(p).subrange(0, a.len() as int));
    assert(enc_patch(p).subrange(0, a.len() as int) =~= a);
    lemma_dec_str_of_enc(s, i, p.old_file);
    let j = i + a.len() as int;
    assert(s.subrange(j, j + b.len() as int) =~= enc_patch(p).subrange(
        a.len() as int,
        (a.len() + b.len()) as int,
    ));
    assert(enc_patch(p).subrange(a.len() as int, (a.len() + b.len()) as int) =~= b);
    lemma_dec_str_of_enc(s, j, p.new_file);
}

proof fn lemma_dec_patches_of_enc(s: Seq<char>, i: int, ps: Seq<PatchV>, k: int)
    requires
        0 <= i,
        0 <= k <= ps.len(),
        i + enc_patches_from(ps, k).len() <= s.len(),
        s.subrange(i, i + enc_patches_from(ps, k).len() as int) == enc_patches_from(ps, k),
        forall|j: int| 0 <= j < ps.len() ==> patch_ok(#[trigger] ps[j]),
    ensures
        dec_patches_at(s, i, (ps.len() - k) as nat) == Some(
            (ps.skip(k), i + enc_patches_from(ps, k).len() as int),
        ),
    decreases ps.len() - k,
{
    if k == ps.len() {
        assert(ps.skip(k) =~= Seq::<PatchV>::empty());
    } else {
        let a = enc_patch(ps[k]);
        let rest = enc_patches_from(ps, k + 1);
        assert(enc_patches_from(ps, k) == a + rest);
        assert(s.subrange(i, i + a.len() as int) =~= enc_patches_from(ps, k).subrange(
            0,
            a.len() as int,
        ));
        assert(enc_patches_from(ps, k).subrange(0, a.len() as int) =~= a);
        lemma_dec_patch_of_enc(s, i, ps[k]);
        let j = i + a.len() as int;
        assert(s.subrange(j, j + rest.len() as int) =~= enc_patches_from(ps, k).subrange(
            a.len() as int,
            (a.len() + rest.len()) as int,
        ));
        assert(enc_patches_from(ps, k).subrange(a.len() as int, (a.len() + rest.len()) as int) =~= rest);
        lemma_dec_patches_of_enc(s, j, ps, k + 1);
        assert(seq![ps[k]] + ps.skip(k + 1) =~= ps.skip(k));
    }
}

proof fn lemma_dec_entry_of_enc(s: Seq<char>, i: int, e: (Seq<char>, Seq<PatchV>))
    requires
        0 <= i,
        i + enc_entry(e).len() <= s.len(),
        s.subrange(i, i + enc_entry(e).len() as int) == enc_entry(e),
        str_ok(e.0),
        e.1.len() < len_limit(),
        forall|j: int| 0 <= j < e.1.len() ==> patch_ok(#[trigger] e.1[j]),
    ensures
        dec_entry_at(s, i) == Some((e, i + enc_entry(e).len() as int)),
{
    let a = enc_str(e.0);
    let c = fixed_digits(e.1.len(), len_width());
    let d = enc_patches_from(e.1, 0);
    assert(enc_entry(e).len() == (a.len() + c.len() + d.len()) as int);
    assert(s.subrange(i, i + a.len() as int) =~= enc_entry(e).subrange(0, a.len() as int));
    assert(enc_entry(e).subrange(0, a.len() as int) =~= a);
    lemma_dec_str_of_enc(s, i, e.0);
    let j = i + a.len() as int;
    lemma_fixed_digits_shape(e.1.len(), len_width());
    assert(s.subrange(j, j + c.len() as int) =~= enc_entry(e).subrange(
        a.len() as int,
        (a.len() + c.len()) as int,
    ));
    assert(enc_entry(e).subrange(a.len() as int, (a.len() + c.len()) as int) =~= c);
    lemma_dec_num_of_enc(s, j, e.1.len());
    let j2 = j + c.len() as int;
    assert(s.subrange(j2, j2 + d.len() as int) =~= enc_entry(e).subrange(
        (a.len() + c.len()) as int,
        (a.len() + c.len() + d.len()) as int,
    ));
    assert(enc_entry(e).subrange((a.len() + c.len()) as int, (a.len() + c.len() + d.len()) as int) =~= d);
    lemma_dec_patches_of_enc(s, j2, e.1, 0);
    assert(e.1.skip(0) =~= e.1);
}

proof fn lemma_dec_entries_of_enc(s: Seq<char>, i: int, es: Seq<(Seq<char>, Seq<PatchV>)>, k: int)
    requires
        0 <= i,
        0 <= k <= es.len(),
        i + enc_entries_from(es, k).len() <= s.len(),
        s.subrange(i, i + enc_entries_from(es, k).len() as int) == enc_entries_from(es, k),
        entries_ok(es),
    ensures
        dec_entries_at(s, i, (es.len() - k) as nat) == Some(
            (es.skip(k), i + enc_entries_from(es, k).len() as int),
        ),
    decreases es.len() - k,
{
    if k == es.len() {
        assert(es.skip(k) =~= Seq::<(Seq<char>, Seq<PatchV>)>::empty());
    } else {
        let a = enc_entry(es[k]);
        let rest = enc_entries_from(es, k + 1);
        assert(enc_entries_from(es, k) == a + rest);
        assert(s.subrange(i, i + a.len() as int) =~= enc_entries_from(es, k).subrange(
            0,
            a.len() as int,
        ));
        assert(enc_entries_from(es, k).subrange(0, a.len() as int) =~= a);
        lemma_dec_entry_of_enc(s, i, es[k]);
        let j = i + a.len() as int;
        assert(s.subrange(j, j + rest.len() as int) =~= enc_entries_from(es, k).subrange(
            a.len() as int,
            (a.len() + rest.len()) as int,
        ));
        assert(enc_entries_from(es, k).subrange(a.len() as int, (a.len() + rest.len()) as int) =~= rest);
        lemma_dec_entries_of_enc(s, j, es, k + 1);
        assert(seq![es[k]] + es.skip(k + 1) =~= es.skip(k));
    }
}

/// Writing a mapping and reading it back returns the mapping unchanged:
/// the round-trip law of the patch disk cache, for every mapping the
/// frame can carry.
pub proof fn lemma_patch_cache_round_trip(es: Seq<(Seq<char>, Seq<PatchV>)>)
    requires
        entries_ok(es),
    ensures
        dec_map(enc_map(es)) == Some(es),
{
    let s = enc_map(es);
    let c = fixed_digits(es.len(), len_width());
    let rest = enc_entries_from(es, 0);
    lemma_fixed_digits_shape(es.len(), len_width());
    assert(s.subrange(0, c.len() as int) =~= c);
    lemma_dec_num_of_enc(s, 0, es.len());
    let j = c.len() as int;
    assert(s.subrange(j, j + rest.len() as int) =~= rest);
    lemma_dec_entries_of_enc(s, j, es, 0);
    assert(es.skip(0) =~= es);
}


proof fn lemma_len_limit_value()
    ensures
        len_limit() == 1000000000,
{
    reveal_with_fuel(pow10, 11);
}

proof fn lemma_pow10_increases(a: nat, b: nat)
    requires
        a <= b,
    ensures
        pow10(a) <= pow10(b),
    decreases b,
{
    if a < b {
        lemma_pow10_increases(a, (b - 1) as nat);
    }
}

/// The path with its separators dropped: what survives of each character.
pub open spec fn strip_seps(s: Seq<char>) -> Seq<char>
    decreases s.len(),
{
    if s.len() == 0 {
        Seq::empty()
    } else {
        strip_seps(s.drop_last()) + (if s.last() == '/' || s.last() == '\\' {
            Seq::empty()
        } else {
            seq![s.last()]
        })
    }
}

/// The cache file name for a repository: its path with the separators
/// stripped, then the file suffix. Two distinct paths that collapse to
/// the same string collide; a known, accepted limitation.
pub open spec fn file_name_of(path: Seq<char>) -> Seq<char> {
    strip_seps(path) + ".json"@
}

/// Derives the cache file name from the repository path.
pub fn get_file_name(repo_path: &String) -> (r: String)
    ensures
        r@ == file_name_of(repo_path@),
{
    let n = repo_path.as_str().unicode_len();
    let mut out = String::new();
    let mut i: usize = 0;
    proof {
        assert(repo_path@.take(0) =~= Seq::<char>::empty());
        assert(out@ =~= strip_seps(repo_path@.take(0)));
    }
    while i < n
        invariant
            n == repo_path@.len(),
            i <= n,
            out@ == strip_seps(repo_path@.take(i as int)),
        decreases n - i,
    {
        let ghost before = out@;
        let c = repo_path.as_str().get_char(i);
        if c != '/' && c != '\\' {
            crate::text::push_char(&mut out, c);
        }
        proof {
            assert(repo_path@.take(i as int + 1).drop_last() =~= repo_path@.take(i as int));
            assert(repo_path@.take(i as int + 1).last() == repo_path@[i as int]);
            if c != '/' && c != '\\' {
                assert(out@ =~= before + seq![c]);
            } else {
                assert(out@ =~= before + Seq::<char>::empty());
            }
        }
        i = i + 1;
    }
    proof {
        assert(repo_path@.take(n as int) =~= repo_path@);
    }
    out.append(".json");
    out
}

fn push_str_framed(out: &mut String, s: &String)
    requires
        s@.len() < len_limit(),
    ensures
        final(out)@ == old(out)@ + enc_str(s@),
{
    let n = s.as_str().unicode_len();
    proof {
        lemma_len_limit_value();
    }
    push_fixed_digits(out, n as u64, 9);
    out.append(s.as_str());
    proof {
        assert(out@ =~= old(out)@ + enc_str(s@));
    }
}

fn push_patch_framed(out: &mut String, p: &Patch)
    requires
        patch_ok(p.deep_view()),
    ensures
        final(out)@ == old(out)@ + enc_patch(p.deep_view()),
{
    push_str_framed(out, &p.old_file);
    push_str_framed(out, &p.new_file);
    proof {
        assert(out@ =~= old(out)@ + enc_patch(p.deep_view()));
    }
}

fn check_sizes(patches: &Vec<(String, Vec<Patch>)>) -> (r: bool)
    ensures
        r == entries_ok(patches.deep_view()),
{
    let ghost es = patches.deep_view();
    proof {
        lemma_len_limit_value();
    }
    if patches.len() >= 1000000000 {
        return false;
    }
    let mut i: usize = 0;
    while i < patches.len()
        invariant
            es == patches.deep_view(),
            es.len() == patches@.len(),
            es.len() < len_limit(),
            len_limit() == 1000000000,
            i <= patches@.len(),
            forall|k: int|
                0 <= k < i ==> str_ok((#[trigger] es[k]).0) && es[k].1.len() < len_limit() && (
                forall|j: int| 0 <= j < es[k].1.len() ==> patch_ok(#[trigger] es[k].1[j])),
        decreases patches.len() - i,
    {
        if patches[i].0.as_str().unicode_len() >= 1000000000 {
            proof {
                assert(es[i as int].0 == patches@[i as int].0@);
                if entries_ok(es) {
                    assert(str_ok(es[i as int].0));
                }
            }
            return false;
        }
        if patches[i].1.len() >= 1000000000 {
            proof {
                assert(es[i as int].1 == patches@[i as int].1.deep_view());
                if entries_ok(es) {
                    assert(es[i as int].1.len() < len_limit());
                }
            }
            return false;
        }
        let mut j: usize = 0;
        while j < patches[i].1.len()
            invariant
                es == patches.deep_view(),
                es.len() == patches@.len(),
                len_limit() == 1000000000,
                i < patches@.len(),
                j <= patches@[i as int].1@.len(),
                es[i as int].1.len() == patches@[i as int].1@.len(),
                forall|k: int| 0 <= k < j ==> patch_ok(#[trigger] es[i as int].1[k]),
            decreases patches[i as int].1.len() - j,
        {
            if patches[i].1[j].old_file.as_str().unicode_len() >= 1000000000 {
                proof {
                    assert(!patch_ok(es[i as int].1[j as int]));
                }
                return false;
            }
            if patches[i].1[j].new_file.as_str().unicode_len() >= 1000000000 {
                proof {
                    assert(!patch_ok(es[i as int].1[j as int]));
                }
                return false;
            }
            j = j + 1;
        }
        i = i + 1;
    }
    true
}

/// Prepares one cache write: the file name for the repository and the
/// framed text of the whole mapping. Yields nothing only when a field of
/// the mapping is too large for its frame. The application writes the
/// text to the named file under the platform cache directory, overwriting
/// whatever was there.
pub fn write_patches_cache(repo_path: &String, patches: &Vec<(String, Vec<Patch>)>) -> (r: Option<
    (String, String),
>)
    ensures
        match r {
            Some(p) => entries_ok(patches.deep_view()) && p.0@ == file_name_of(repo_path@) && p.1@
                == enc_map(patches.deep_view()),
            None => !entries_ok(patches.deep_view()),
        },
{
    if !check_sizes(patches) {
        return None;
    }
    let ghost es = patches.deep_view();
    proof {
        lemma_len_limit_value();
    }
    let name = get_file_name(repo_path);
    let mut out = String::new();
    push_fixed_digits(&mut out, patches.len() as u64, 9);
    let ghost head = out@;
    proof {
        assert(out@ =~= fixed_digits(es.len(), len_width()) + Seq::<char>::empty());
        assert(head =~= fixed_digits(es.len(), len_width()));
    }
    let mut i: usize = 0;
    while i < patches.len()
        invariant
            es == patches.deep_view(),
            es.len() == patches@.len(),
            entries_ok(es),
            head == fixed_digits(es.len(), len_width()),
            i <= patches@.len(),
            out@ + enc_entries_from(es, i as int) == head + enc_entries_from(es, 0),
        decreases patches.len() - i,
    {
        let ghost out0 = out@;
        push_str_framed(&mut out, &patches[i].0);
        push_fixed_digits(&mut out, patches[i].1.len() as u64, 9);
        let ghost mid = out@;
        let ghost psv = es[i as int].1;
        let mut j: usize = 0;
        proof {
            assert(mid =~= out0 + enc_str(es[i as int].0) + fixed_digits(psv.len(), len_width()));
        }
        while j < patches[i].1.len()
            invariant
                es == patches.deep_view(),
                es.len() == patches@.len(),
                entries_ok(es),
                i < patches@.len(),
                psv == es[i as int].1,
                psv.len() == patches@[i as int].1@.len(),
                j <= patches@[i as int].1@.len(),
                out@ + enc_patches_from(psv, j as int) == mid + enc_patches_from(psv, 0),
            decreases patches[i as int].1.len() - j,
        {
            let ghost outp = out@;
            proof {
                assert(patches@[i as int].1@[j as int].deep_view() == psv[j as int]);
                assert(patch_ok(psv[j as int]));
            }
            push_patch_framed(&mut out, &patches[i].1[j]);
            proof {
                assert(outp + (enc_patch(psv[j as int]) + enc_patches_from(psv, j as int + 1))
                    =~= out@ + enc_patches_from(psv, j as int + 1));
            }
            j = j + 1;
        }
        proof {
            assert(enc_patches_from(psv, psv.len() as int) =~= Seq::<char>::empty());
            assert(out@ =~= out@ + enc_patches_from(psv, psv.len() as int));
            assert(out@ =~= mid + enc_patches_from(psv, 0));
            assert(out@ =~= out0 + enc_entry(es[i as int]));
            assert(out0 + (enc_entry(es[i as int]) + enc_entries_from(es, i as int + 1)) =~= out@
                + enc_entries_from(es, i as int + 1));
        }
        i = i + 1;
    }
    proof {
        assert(enc_entries_from(es, es.len() as int) =~= Seq::<char>::empty());
        assert(out@ =~= out@ + enc_entries_from(es, es.len() as int));
        assert(out@ =~= head + enc_entries_from(es, 0));
        assert(out@ =~= enc_map(es));
    }
    Some((name, out))
}

fn dec_num_exec(s: &str, i: usize) -> (r: Option<(u64, usize)>)
    requires
        i <= s@.len(),
    ensures
        match r {
            Some(p) => dec_num_at(s@, i as int) == Some((p.0 as nat, p.1 as int)) && p.1 == i + 9
                && p.1 <= s@.len() && p.0 < 1000000000,
            None => dec_num_at(s@, i as int) is None,
        },
{
    let n = s.unicode_len();
    proof {
        lemma_len_limit_value();
    }
    if n - i < 9 {
        return None;
    }
    let mut val: u64 = 0;
    let mut k: usize = 0;
    proof {
        assert(s@.subrange(i as int, i as int) =~= Seq::<char>::empty());
    }
    while k < 9
        invariant
            n == s@.len(),
            i + 9 <= n,
            k <= 9,
            val as nat == parse_digits(s@.subrange(i as int, i as int + k as int)),
            val < pow10(k as nat),
            len_limit() == 1000000000,
            forall|m: int| i <= m < i + k ==> is_digit(#[trigger] s@[m]),
        decreases 9 - k,
    {
        let c = s.get_char(i + k);
        match digit_of(c) {
            Some(d) => {
                proof {
                    lemma_pow10_increases(k as nat, 8);
                    assert(pow10(8) < pow10(9)) by {
                        reveal_with_fuel(pow10, 11);
                    }
                    assert(val < 1000000000);
                    let sub1 = s@.subrange(i as int, i as int + k as int + 1);
                    assert(sub1.drop_last() =~= s@.subrange(i as int, i as int + k as int));
                    assert(sub1.last() == s@[i as int + k as int]);
                    assert((val as nat) * 10 + (d as nat) < pow10((k + 1) as nat))
                        by (nonlinear_arith)
                        requires
                            (val as nat) < pow10(k as nat),
                            d < 10,
                            pow10((k + 1) as nat) == 10 * pow10(k as nat),
                    ;
                }
                val = val * 10 + (d as u64);
            },
            None => {
                proof {
                    assert(!is_digit(s@[i as int + k as int]));
                    assert(dec_num_at(s@, i as int) is None);
                }
                return None;
            },
        }
        k = k + 1;
    }
    proof {
        assert(s@.subrange(i as int, i as int + 9) =~= s@.subrange(i as int, i as int + k as int));
        assert(dec_num_at(s@, i as int) == Some(
            (parse_digits(s@.subrange(i as int, i as int + 9)), i as int + 9),
        ));
    }
    Some((val, i + 9))
}

fn dec_str_exec(s: &str, i: usize) -> (r: Option<(String, usize)>)
    requires
        i <= s@.len(),
    ensures
        match r {
            Some(p) => dec_str_at(s@, i as int) matches Some(q) && p.0@ == q.0 && p.1 as int == q.1
                && p.1 <= s@.len(),
            None => dec_str_at(s@, i as int) is None,
        },
{
    let n = s.unicode_len();
    match dec_num_exec(s, i) {
        Some((len, j)) => {
            let len_u: usize = len as usize;
            if n - j < len_u {
                proof {
                    assert(dec_str_at(s@, i as int) is None);
                }
                return None;
            }
            let part = s.substring_char(j, j + len_u);
            let owned = String::from_str(part);
            Some((owned, j + len_u))
        },
        None => None,
    }
}

fn dec_patch_exec(s: &str, i: usize) -> (r: Option<(Patch, usize)>)
    requires
        i <= s@.len(),
    ensures
        match r {
            Some(p) => dec_patch_at(s@, i as int) matches Some(q) && p.0.deep_view() == q.0 && p.1
                as int == q.1 && p.1 <= s@.len(),
            None => dec_patch_at(s@, i as int) is None,
        },
{
    match dec_str_exec(s, i) {
        Some((of, j)) => {
            match dec_str_exec(s, j) {
                Some((nf, j2)) => Some((Patch { old_file: of, new_file: nf }, j2)),
                None => None,
            }
        },
        None => None,
    }
}

fn dec_patches_exec(s: &str, i: usize, cnt: u64) -> (r: Option<(Vec<Patch>, usize)>)
    requires
        i <= s@.len(),
    ensures
        match r {
            Some(p) => dec_patches_at(s@, i as int, cnt as nat) matches Some(q) && p.0.deep_view()
                == q.0 && p.1 as int == q.1 && p.1 <= s@.len(),
            None => dec_patches_at(s@, i as int, cnt as nat) is None,
        },
{
    let mut out: Vec<Patch> = Vec::new();
    let mut pos: usize = i;
    let mut k: u64 = 0;
    proof {
        assert(out.deep_view() =~= Seq::<PatchV>::empty());
    }
    while k < cnt
        invariant
            i <= s@.len(),
            pos <= s@.len(),
            k <= cnt,
            match dec_patches_at(s@, pos as int, (cnt - k) as nat) {
                Some(q) => dec_patches_at(s@, i as int, cnt as nat) matches Some(q2) && q2.0
                    == out.deep_view() + q.0 && q2.1 == q.1,
                None => dec_patches_at(s@, i as int, cnt as nat) is None,
            },
        decreases cnt - k,
    {
        let ghost out0 = out.deep_view();
        match dec_patch_exec(s, pos) {
            Some((p, j)) => {
                proof {
                    let q = dec_patch_at(s@, pos as int).unwrap();
                }
                out.push(p);
                proof {
                    assert(out.deep_view() =~= out0.push(
                        dec_patch_at(s@, pos as int).unwrap().0,
                    ));
                    assert(out0 + (seq![dec_patch_at(s@, pos as int).unwrap().0] + dec_patches_at(
                        s@,
                        j as int,
                        (cnt - k - 1) as nat,
                    ).unwrap_or((Seq::empty(), 0)).0) =~= out.deep_view() + dec_patches_at(
                        s@,
                        j as int,
                        (cnt - k - 1) as nat,
                    ).unwrap_or((Seq::empty(), 0)).0);
                }
                pos = j;
            },
            None => {
                return None;
            },
        }
        k = k + 1;
    }
    Some((out, pos))
}

/// Reads one cache file back: the mapping it framed, or nothing when the
/// file was missing or its content does not parse — a miss, not an
/// error. The application hands in the file text it managed to read.
#[verifier::rlimit(100)]
pub fn load_patches_cache(file_text: Option<&String>) -> (r: Option<Vec<(String, Vec<Patch>)>>)
    ensures
        match file_text {
            None => r is None,
            Some(t) => match dec_map(t@) {
                Some(es) => r matches Some(v) && v.deep_view() == es,
                None => r is None,
            },
        },
{
    let text = match file_text {
        Some(t) => t,
        None => {
            return None;
        },
    };
    let s = text.as_str();
    let n = s.unicode_len();
    let (cnt, mut pos) = match dec_num_exec(s, 0) {
        Some(p) => p,
        None => {
            return None;
        },
    };
    let mut out: Vec<(String, Vec<Patch>)> = Vec::new();
    let mut k: u64 = 0;
    proof {
        assert(out.deep_view() =~= Seq::<(Seq<char>, Seq<PatchV>)>::empty());
    }
    while k < cnt
        invariant
            n == s@.len(),
            s@ == text@,
            file_text matches Some(t) && t@ == s@,
            pos <= s@.len(),
            k <= cnt,
            dec_num_at(s@, 0) == Some((cnt as nat, 9int)),
            match dec_entries_at(s@, pos as int, (cnt - k) as nat) {
                Some(q) => dec_entries_at(s@, 9, cnt as nat) matches Some(q2) && q2.0
                    == out.deep_view() + q.0 && q2.1 == q.1,
                None => dec_entries_at(s@, 9, cnt as nat) is None,
            },
        decreases cnt - k,
    {
        let ghost out0 = out.deep_view();
        let (key, j) = match dec_str_exec(s, pos) {
            Some(p) => p,
            None => {
                proof {
                    assert(dec_entry_at(s@, pos as int) is None);
                }
                return None;
            },
        };
        let (pcnt, j2) = match dec_num_exec(s, j) {
            Some(p) => p,
            None => {
                proof {
                    assert(dec_entry_at(s@, pos as int) is None);
                }
                return None;
            },
        };
        let (ps, j3) = match dec_patches_exec(s, j2, pcnt) {
            Some(p) => p,
            None => {
                proof {
                    assert(dec_entry_at(s@, pos as int) is None);
                }
                return None;
            },
        };
        proof {
            let e = dec_entry_at(s@, pos as int).unwrap();
            assert(e.0.0 == key@ && e.0.1 == ps.deep_view() && e.1 == j3 as int);
        }
        let ghost ev = dec_entry_at(s@, pos as int).unwrap().0;
        out.push((key, ps));
        proof {
            assert(out.deep_view() =~= out0.push(ev));
            let restq = dec_entries_at(s@, j3 as int, (cnt - k - 1) as nat);
            match restq {
                Some(q) => {
                    assert(out0 + (seq![ev] + q.0) =~= out.deep_view() + q.0);
                },
                None => {},
            }
        }
        pos = j3;
        k = k + 1;
    }
    if pos != n {
        proof {
            assert(dec_map(text@) is None);
        }
        return None;
    }
    Some(out)
}

} // verus!
