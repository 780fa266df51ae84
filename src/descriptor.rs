//! Output descriptors for single-key script templates, with the key's origin
//! (master fingerprint and derivation path) kept in the text:
//! `wpkh([73c5da0a/84'/1'/0']tpub.../0/*)#checksum`.
use vstd::prelude::*;
use crate::path::{
    ChildStep, steps_wf, path_text, push_path, parse_path_range, lemma_path_chars, is_path_char,
};
use crate::text::{chars_of, string_of, matches_at, is_digit};

verus! {

/// The script templates that a descriptor can name.
#[derive(Clone, Copy, Debug, PartialEq, Eq, Structural)]
pub enum ScriptKind {
    /// Pay to public key hash: `pkh(...)`.
    Pkh,
    /// Pay to witness public key hash: `wpkh(...)`.
    Wpkh,
}

/// Why a text was not accepted.
#[derive(Clone, Copy, Debug, PartialEq, Eq, Structural)]
pub enum InputError {
    /// A mnemonic whose words or checksum are not valid.
    InvalidMnemonic,
    /// A derivation path whose text is not valid.
    InvalidPath,
    /// A descriptor whose grammar or checksum is not valid.
    MalformedDescriptor,
    /// A mnemonic length other than 12, 15, 18, 21 or 24 words.
    UnsupportedWordCount,
}

/// Where a key comes from: the fingerprint of the master key and the path
/// from the master key to it.
#[derive(Clone, Debug)]
pub struct KeyOrigin {
    pub fingerprint: [u8; 4],
    pub path: Vec<ChildStep>,
}

/// A single-key descriptor: a template, a key with its origin, and the path
/// below the key that leads to each address (ending in `*` when it varies by
/// address index).
#[derive(Clone, Debug)]
pub struct Descriptor {
    pub kind: ScriptKind,
    pub origin: KeyOrigin,
    pub key: String,
    pub tail: Vec<ChildStep>,
    pub wildcard: bool,
}

/// The mathematical value of a descriptor.
pub struct DescriptorView {
    pub kind: ScriptKind,
    pub fingerprint: Seq<u8>,
    pub origin: Seq<ChildStep>,
    pub key: Seq<char>,
    pub tail: Seq<ChildStep>,
    pub wildcard: bool,
}

impl View for Descriptor {
    type V = DescriptorView;

    open spec fn view(&self) -> DescriptorView {
        DescriptorView {
            kind: self.kind,
            fingerprint: self.origin.fingerprint@,
            origin: self.origin.path@,
            key: self.key@,
            tail: self.tail@,
            wildcard: self.wildcard,
        }
    }
}

/// The characters of an encoded key (base58 uses letters and digits only).
pub open spec fn is_key_char(c: char) -> bool {
    is_digit(c) || ('a' <= c && c <= 'z') || ('A' <= c && c <= 'Z')
}

pub open spec fn descriptor_wf(v: DescriptorView) -> bool {
    &&& v.fingerprint.len() == 4
    &&& steps_wf(v.origin)
    &&& steps_wf(v.tail)
    &&& forall|i: int| 0 <= i < v.tail.len() ==> !(#[trigger] v.tail[i]).hardened
    &&& v.key.len() > 0
    &&& forall|i: int| 0 <= i < v.key.len() ==> is_key_char(#[trigger] v.key[i])
}

pub open spec fn hex_chars() -> Seq<char> {
    seq!['0', '1', '2', '3', '4', '5', '6', '7', '8', '9', 'a', 'b', 'c', 'd', 'e', 'f']
}

/// The two lowercase hexadecimal digits of a byte.
pub open spec fn hex_pair(b: u8) -> Seq<char> {
    seq![hex_chars()[(b / 16) as int], hex_chars()[(b % 16) as int]]
}

pub open spec fn fingerprint_text(f: Seq<u8>) -> Seq<char> {
    hex_pair(f[0]) + hex_pair(f[1]) + hex_pair(f[2]) + hex_pair(f[3])
}

pub open spec fn kind_open(k: ScriptKind) -> Seq<char> {
    match k {
        ScriptKind::Pkh => seq!['p', 'k', 'h', '('],
        ScriptKind::Wpkh => seq!['w', 'p', 'k', 'h', '('],
    }
}

pub open spec fn wildcard_text(w: bool) -> Seq<char> {
    if w {
        seq!['/', '*']
    } else {
        Seq::empty()
    }
}

/// The descriptor's text without its checksum.
pub open spec fn body_text(v: DescriptorView) -> Seq<char> {
    kind_open(v.kind) + seq!['['] + fingerprint_text(v.fingerprint) + path_text(v.origin) + seq![
        ']',
    ] + v.key + path_text(v.tail) + wildcard_text(v.wildcard) + seq![')']
}

/// What the descriptor checksum of a text is (eight characters).
pub uninterp spec fn descriptor_checksum(body: Seq<char>) -> Seq<char>;

/// The descriptor's full text: its body, `#`, and the body's checksum.
pub open spec fn full_text(v: DescriptorView) -> Seq<char> {
    body_text(v) + seq!['#'] + descriptor_checksum(body_text(v))
}

/// The characters that the checksum accepts include letters, digits and
/// those of the descriptor grammar.
pub open spec fn checksum_accepts(s: Seq<char>) -> bool {
    forall|i: int|
        0 <= i < s.len() ==> (is_key_char(#[trigger] s[i]) || s[i] == '(' || s[i] == ')' || s[i]
            == '[' || s[i] == ']' || s[i] == '/' || s[i] == '\'' || s[i] == '*')
}

/// Relies on `bdk::descriptor::get_checksum`: the checksum of the text, which
/// it computes for every text whose characters lie in its input set (letters,
/// digits and `()[]/'*` among them).
#[verifier::external_body]
fn checksum(body: &str) -> (r: Option<String>)
    ensures
        r matches Some(c) ==> c@ == descriptor_checksum(body@),
        checksum_accepts(body@) ==> r is Some,
{
    bdk::descriptor::get_checksum(body).ok()
}

pub open spec fn pos_fp(v: DescriptorView) -> int {
    kind_open(v.kind).len() + 1int
}

pub open spec fn pos_origin(v: DescriptorView) -> int {
    pos_fp(v) + 8
}

pub open spec fn pos_close(v: DescriptorView) -> int {
    pos_origin(v) + path_text(v.origin).len()
}

pub open spec fn pos_key(v: DescriptorView) -> int {
    pos_close(v) + 1
}

pub open spec fn pos_tail(v: DescriptorView) -> int {
    pos_key(v) + v.key.len()
}

pub open spec fn pos_wild(v: DescriptorView) -> int {
    pos_tail(v) + path_text(v.tail).len()
}

pub open spec fn pos_end(v: DescriptorView) -> int {
    pos_wild(v) + wildcard_text(v.wildcard).len()
}

proof fn lemma_hex_chars(n: int)
    requires
        0 <= n < 16,
    ensures
        is_key_char(hex_chars()[n]),
{
}

/// Where each part of a descriptor's body text stands.
proof fn lemma_body_layout(v: DescriptorView)
    requires
        descriptor_wf(v),
    ensures
        body_text(v).len() == pos_end(v) + 1,
        body_text(v).subrange(0, pos_fp(v)) == kind_open(v.kind) + seq!['['],
        body_text(v).subrange(pos_fp(v), pos_origin(v)) == fingerprint_text(v.fingerprint),
        body_text(v).subrange(pos_origin(v), pos_close(v)) == path_text(v.origin),
        body_text(v)[pos_close(v)] == ']',
        body_text(v).subrange(pos_key(v), pos_tail(v)) == v.key,
        body_text(v).subrange(pos_tail(v), pos_wild(v)) == path_text(v.tail),
        body_text(v)[pos_end(v)] == ')',
        forall|i: int| pos_origin(v) <= i < pos_close(v) ==> #[trigger] body_text(v)[i] != ']',
        forall|i: int| pos_key(v) <= i < pos_tail(v) ==> is_key_char(#[trigger] body_text(v)[i]),
        !is_key_char(body_text(v)[pos_tail(v)]),
        v.wildcard ==> body_text(v)[pos_end(v) - 1] == '*' && body_text(v)[pos_end(v) - 2] == '/',
        !v.wildcard ==> body_text(v)[pos_end(v) - 1] != '*',
        pos_tail(v) <= pos_wild(v) <= pos_end(v),
{
    let s = body_text(v);
    let ko = kind_open(v.kind) + seq!['['];
    let ft = fingerprint_text(v.fingerprint);
    let ot = path_text(v.origin);
    let tt = path_text(v.tail);
    let wt = wildcard_text(v.wildcard);
    lemma_path_chars(v.origin);
    lemma_path_chars(v.tail);
    assert(s =~= ko + ft + ot + seq![']'] + v.key + tt + wt + seq![')']);
    assert(s.subrange(0, pos_fp(v)) =~= ko);
    assert(s.subrange(pos_fp(v), pos_origin(v)) =~= ft);
    assert(s.subrange(pos_origin(v), pos_close(v)) =~= ot);
    assert(s.subrange(pos_key(v), pos_tail(v)) =~= v.key);
    assert(s.subrange(pos_tail(v), pos_wild(v)) =~= tt);
    assert forall|i: int| pos_origin(v) <= i < pos_close(v) implies #[trigger] s[i] != ']' by {
        assert(s[i] == ot[i - pos_origin(v)]);
        assert(is_path_char(ot[i - pos_origin(v)]));
    }
    assert forall|i: int| pos_key(v) <= i < pos_tail(v) implies is_key_char(#[trigger] s[i]) by {
        assert(s[i] == v.key[i - pos_key(v)]);
    }
    if tt.len() > 0 {
        assert(s[pos_tail(v)] == tt[0]);
        crate::path::lemma_path_text_first(v.tail);
    } else if v.wildcard {
        assert(s[pos_tail(v)] == '/');
    } else {
        assert(s[pos_tail(v)] == ')');
    }
    if !v.wildcard {
        if tt.len() > 0 {
            assert(s[pos_end(v) - 1] == tt.last());
        } else {
            assert(s[pos_end(v) - 1] == v.key.last());
        }
    }
}

proof fn lemma_body_accepted(v: DescriptorView)
    requires
        descriptor_wf(v),
    ensures
        checksum_accepts(body_text(v)),
{
    let s = body_text(v);
    let ko = kind_open(v.kind) + seq!['['];
    let ft = fingerprint_text(v.fingerprint);
    let ot = path_text(v.origin);
    let tt = path_text(v.tail);
    let wt = wildcard_text(v.wildcard);
    lemma_path_chars(v.origin);
    lemma_path_chars(v.tail);
    assert(s =~= ko + ft + ot + seq![']'] + v.key + tt + wt + seq![')']);
    assert(ft =~= hex_pair(v.fingerprint[0]) + hex_pair(v.fingerprint[1]) + hex_pair(
        v.fingerprint[2],
    ) + hex_pair(v.fingerprint[3]));
    assert forall|i: int| 0 <= i < s.len() implies (is_key_char(#[trigger] s[i]) || s[i] == '('
        || s[i] == ')' || s[i] == '[' || s[i] == ']' || s[i] == '/' || s[i] == '\'' || s[i]
        == '*') by {
        if i < pos_fp(v) {
            assert(s[i] == ko[i]);
        } else if i < pos_origin(v) {
            let j = i - pos_fp(v);
            assert(s[i] == ft[j]);
            let b = v.fingerprint[j / 2];
            lemma_hex_chars((b / 16) as int);
            lemma_hex_chars((b % 16) as int);
        } else if i < pos_close(v) {
            assert(s[i] == ot[i - pos_origin(v)]);
            assert(is_path_char(ot[i - pos_origin(v)]));
        } else if i < pos_tail(v) {
        } else if i < pos_wild(v) {
            assert(s[i] == tt[i - pos_tail(v)]);
            assert(is_path_char(tt[i - pos_tail(v)]));
        } else if i < pos_end(v) {
            assert(s[i] == wt[i - pos_wild(v)]);
        }
    }
}

fn hex_digit(n: u8) -> (c: char)
    requires
        n < 16,
    ensures
        c == hex_chars()[n as int],
{
    if n == 0 { '0' } else if n == 1 { '1' } else if n == 2 { '2' } else if n == 3 { '3' }
    else if n == 4 { '4' } else if n == 5 { '5' } else if n == 6 { '6' } else if n == 7 { '7' }
    else if n == 8 { '8' } else if n == 9 { '9' } else if n == 10 { 'a' } else if n == 11 { 'b' }
    else if n == 12 { 'c' } else if n == 13 { 'd' } else if n == 14 { 'e' } else { 'f' }
}

fn hex_value(c: char) -> (r: Option<u8>)
    ensures
        r matches Some(n) ==> n < 16 && hex_chars()[n as int] == c,
        forall|n: int| 0 <= n < 16 && hex_chars()[n] == c ==> r == Some(n as u8),
{
    if '0' <= c && c <= '9' {
        let n = (c as u32 - '0' as u32) as u8;
        assert(hex_chars()[n as int] == c);
        Some(n)
    } else if 'a' <= c && c <= 'f' {
        let n = (c as u32 - 'a' as u32 + 10) as u8;
        assert(hex_chars()[n as int] == c);
        Some(n)
    } else {
        None
    }
}

fn push_fingerprint(out: &mut Vec<char>, f: &[u8; 4])
    ensures
        final(out)@ == old(out)@ + fingerprint_text(f@),
{
    let mut i: usize = 0;
    while i < 4
        invariant
            i <= 4,
            f@.len() == 4,
            out@ == old(out)@ + (seq![] + if i > 0 { hex_pair(f@[0]) } else { seq![] } + if i > 1 {
                hex_pair(f@[1])
            } else {
                seq![]
            } + if i > 2 { hex_pair(f@[2]) } else { seq![] } + if i > 3 { hex_pair(f@[3]) } else {
                seq![]
            }),
        decreases 4 - i,
    {
        let b = f[i];
        out.push(hex_digit(b / 16));
        out.push(hex_digit(b % 16));
        i += 1;
        assert(out@ =~= old(out)@ + (seq![] + if i > 0 { hex_pair(f@[0]) } else { seq![] } + if i
            > 1 {
            hex_pair(f@[1])
        } else {
            seq![]
        } + if i > 2 { hex_pair(f@[2]) } else { seq![] } + if i > 3 { hex_pair(f@[3]) } else {
            seq![]
        }));
    }
    assert(out@ =~= old(out)@ + fingerprint_text(f@));
}

fn push_str_chars(out: &mut Vec<char>, s: &Vec<char>)
    ensures
        final(out)@ == old(out)@ + s@,
{
    let mut i: usize = 0;
    while i < s.len()
        invariant
            i <= s@.len(),
            out@ == old(out)@ + s@.take(i as int),
        decreases s@.len() - i,
    {
        out.push(s[i]);
        i += 1;
        assert(out@ =~= old(out)@ + s@.take(i as int));
    }
    assert(s@.take(i as int) =~= s@);
}

/// Appends the body text of `d` to `out`.
fn push_body(out: &mut Vec<char>, d: &Descriptor)
    ensures
        final(out)@ == old(out)@ + body_text(d@),
{
    match d.kind {
        ScriptKind::Pkh => {
            out.push('p');
            out.push('k');
            out.push('h');
            out.push('(');
        },
        ScriptKind::Wpkh => {
            out.push('w');
            out.push('p');
            out.push('k');
            out.push('h');
            out.push('(');
        },
    }
    out.push('[');
    assert(out@ =~= old(out)@ + kind_open(d.kind) + seq!['[']);
    push_fingerprint(out, &d.origin.fingerprint);
    push_path(out, &d.origin.path);
    out.push(']');
    let key = chars_of(d.key.as_str());
    push_str_chars(out, &key);
    push_path(out, &d.tail);
    if d.wildcard {
        out.push('/');
        out.push('*');
    }
    out.push(')');
    assert(out@ =~= old(out)@ + body_text(d@));
}

/// The first position in `[from, to)` that holds `c`, or `to`.
fn find_char(s: &Vec<char>, from: usize, to: usize, c: char) -> (r: usize)
    requires
        from <= to <= s@.len(),
    ensures
        from <= r <= to,
        r < to ==> s@[r as int] == c,
        forall|i: int| from <= i < r ==> s@[i] != c,
{
    let mut i = from;
    while i < to && s[i] != c
        invariant
            from <= i <= to <= s@.len(),
            forall|k: int| from <= k < i ==> s@[k] != c,
        decreases to - i,
    {
        i += 1;
    }
    i
}

/// The end of the run of key characters that starts at `from`.
fn key_run_end(s: &Vec<char>, from: usize, to: usize) -> (r: usize)
    requires
        from <= to <= s@.len(),
    ensures
        from <= r <= to,
        r < to ==> !is_key_char(s@[r as int]),
        forall|i: int| from <= i < r ==> is_key_char(#[trigger] s@[i]),
{
    let mut i = from;
    while i < to && (('0' <= s[i] && s[i] <= '9') || ('a' <= s[i] && s[i] <= 'z') || ('A' <= s[i]
        && s[i] <= 'Z'))
        invariant
            from <= i <= to <= s@.len(),
            forall|k: int| from <= k < i ==> is_key_char(#[trigger] s@[k]),
        decreases to - i,
    {
        i += 1;
    }
    i
}

fn sub_chars(s: &Vec<char>, from: usize, to: usize) -> (r: Vec<char>)
    requires
        from <= to <= s@.len(),
    ensures
        r@ == s@.subrange(from as int, to as int),
{
    let mut r: Vec<char> = Vec::new();
    let mut i = from;
    while i < to
        invariant
            from <= i <= to <= s@.len(),
            r@ == s@.subrange(from as int, i as int),
        decreases to - i,
    {
        r.push(s[i]);
        i += 1;
        assert(r@ =~= s@.subrange(from as int, i as int));
    }
    r
}

/// Whether some well-formed descriptor has the body text `t`.
pub open spec fn is_body(t: Seq<char>) -> bool {
    exists|v: DescriptorView| descriptor_wf(v) && #[trigger] body_text(v) == t
}

/// Whether `v` is well formed and has the body text `s[0..end]`.
pub open spec fn body_at(v: DescriptorView, s: Seq<char>, end: int) -> bool {
    descriptor_wf(v) && body_text(v) == s.subrange(0, end)
}

fn read_kind(s: &Vec<char>, end: usize) -> (r: Option<(ScriptKind, usize)>)
    requires
        end <= s.len(),
    ensures
        forall|v: DescriptorView|
            #[trigger] body_at(v, s@, end as int) ==> (r matches Some((k, pre)) && v.kind == k
                && pos_fp(v) == pre),
        r matches Some((k, pre)) ==> pre <= 6,
{
    let wp = vec!['w', 'p', 'k', 'h', '(', '['];
    let pp = vec!['p', 'k', 'h', '(', '['];
    let ghost t = s@.subrange(0, end as int);
    let r = if matches_at(s, 0, &wp) && end >= 6 {
        Some((ScriptKind::Wpkh, 6usize))
    } else if matches_at(s, 0, &pp) && end >= 5 {
        Some((ScriptKind::Pkh, 5usize))
    } else {
        None
    };
    proof {
        assert forall|v: DescriptorView| #[trigger] body_at(v, s@, end as int) implies (r matches Some(
            (k, pre),
        ) && v.kind == k && pos_fp(v) == pre) by {
            lemma_body_layout(v);
            let ko = kind_open(v.kind) + seq!['['];
            assert(t.subrange(0, pos_fp(v)) == ko);
            assert(s@.subrange(0, pos_fp(v)) =~= ko);
            assert(s@[0] == ko[0]);
            if v.kind == ScriptKind::Wpkh {
                assert(ko =~= wp@);
            } else {
                assert(ko =~= pp@);
            }
        }
    }
    r
}

fn read_fingerprint(s: &Vec<char>, pre: usize, end: usize) -> (r: Option<[u8; 4]>)
    requires
        end <= s.len(),
    ensures
        forall|v: DescriptorView|
            #[trigger] body_at(v, s@, end as int) && pos_fp(v) == pre ==> (r matches Some(f)
                && f@ == v.fingerprint),
        r is Some ==> pre + 8 <= end,
{
    let ghost t = s@.subrange(0, end as int);
    if end < 8 || pre > end - 8 {
        proof {
            assert forall|v: DescriptorView|
                #[trigger] body_at(v, s@, end as int) && pos_fp(v) == pre implies false by {
                lemma_body_layout(v);
            }
        }
        return None;
    }
    let mut fp: [u8; 4] = [0u8; 4];
    let mut i: usize = 0;
    while i < 4
        invariant
            i <= 4,
            pre + 8 <= end <= s.len(),
            t == s@.subrange(0, end as int),
            fp@.len() == 4,
            forall|v: DescriptorView|
                #[trigger] body_at(v, s@, end as int) && pos_fp(v) == pre ==> forall|j: int|
                    0 <= j < i ==> fp@[j] == v.fingerprint[j],
        decreases 4 - i,
    {
        let hi = hex_value(s[pre + 2 * i]);
        let lo = hex_value(s[pre + 2 * i + 1]);
        let ghost old_fp = fp@;
        let ok = match (hi, lo) {
            (Some(h), Some(l)) => {
                fp[i] = h * 16 + l;
                true
            },
            _ => false,
        };
        proof {
            assert forall|v: DescriptorView|
                #[trigger] body_at(v, s@, end as int) && pos_fp(v) == pre implies ok && forall|j: int|
                    0 <= j < i + 1 ==> fp@[j] == v.fingerprint[j] by {
                lemma_body_layout(v);
                let ft = fingerprint_text(v.fingerprint);
                assert(ft =~= hex_pair(v.fingerprint[0]) + hex_pair(v.fingerprint[1]) + hex_pair(
                    v.fingerprint[2],
                ) + hex_pair(v.fingerprint[3]));
                let b = v.fingerprint[i as int];
                assert(ft[2 * i] == hex_pair(b)[0]);
                assert(ft[2 * i + 1] == hex_pair(b)[1]);
                assert(t.subrange(pos_fp(v), pos_origin(v))[2 * i] == ft[2 * i]);
                assert(t.subrange(pos_fp(v), pos_origin(v))[2 * i + 1] == ft[2 * i + 1]);
                assert(s@[pre + 2 * i] == hex_chars()[(b / 16) as int]);
                assert(s@[pre + 2 * i + 1] == hex_chars()[(b % 16) as int]);
                assert forall|j: int| 0 <= j < i + 1 implies fp@[j] == v.fingerprint[j] by {
                    if j < i {
                        assert(fp@[j] == old_fp[j]);
                    }
                }
            }
        }
        if !ok {
            return None;
        }
        i += 1;
    }
    proof {
        assert forall|v: DescriptorView|
            #[trigger] body_at(v, s@, end as int) && pos_fp(v) == pre implies fp@ == v.fingerprint by {
            assert(fp@ =~= v.fingerprint);
        }
    }
    Some(fp)
}

#[verifier::rlimit(50)]
fn read_rest(s: &Vec<char>, c: usize, end: usize) -> (r: Option<(String, Vec<ChildStep>, bool)>)
    requires
        c < end <= s.len(),
    ensures
        forall|v: DescriptorView|
            #[trigger] body_at(v, s@, end as int) && pos_close(v) == c ==> (r matches Some(
                (k, tl, w),
            ) && k@ == v.key && tl@ == v.tail && w == v.wildcard),
{
    let ghost t = s@.subrange(0, end as int);
    let ko = key_run_end(s, c + 1, end);
    proof {
        assert forall|v: DescriptorView| #[trigger] body_at(v, s@, end as int) && pos_close(v) == c implies ko == pos_tail(v)
            && s@.subrange(c + 1, ko as int) == v.key by {
            lemma_body_layout(v);
            assert(s@[pos_tail(v)] == t[pos_tail(v)]);
            assert forall|i: int| c + 1 <= i < pos_tail(v) implies is_key_char(s@[i]) by {
                assert(s@[i] == t[i]);
            }
            assert(s@.subrange(c + 1, pos_tail(v)) =~= t.subrange(pos_key(v), pos_tail(v)));
        }
    }
    if ko == c + 1 || ko == end || s[end - 1] != ')' {
        proof {
            assert forall|v: DescriptorView| #[trigger] body_at(v, s@, end as int) && pos_close(v) == c implies false by {
                lemma_body_layout(v);
                assert(s@[end - 1] == t[pos_end(v)]);
            }
        }
        return None;
    }
    let wildcard = end - ko >= 3 && s[end - 2] == '*' && s[end - 3] == '/';
    let te = if wildcard { end - 3 } else { end - 1 };
    proof {
        assert forall|v: DescriptorView| #[trigger] body_at(v, s@, end as int) && pos_close(v) == c implies wildcard
            == v.wildcard && s@.subrange(ko as int, te as int) == path_text(v.tail) by {
            lemma_body_layout(v);
            assert(s@[end - 2] == t[pos_end(v) - 1]);
            assert(s@[end - 3] == t[pos_end(v) - 2]);
            assert(s@.subrange(ko as int, te as int) =~= t.subrange(pos_tail(v), pos_wild(v)));
        }
    }
    let tail = match parse_path_range(s, ko, te) {
        Some(p) => p,
        None => {
            return None;
        },
    };
    let key_chars = sub_chars(s, c + 1, ko);
    let key = string_of(&key_chars);
    Some((key, tail, wildcard))
}

/// Reads the parts of a descriptor from `s[0..end]`. When that text is the
/// body of a well-formed descriptor, the read yields that descriptor.
#[verifier::rlimit(50)]
fn read_body(s: &Vec<char>, end: usize) -> (r: Option<Descriptor>)
    requires
        end <= s.len(),
    ensures
        forall|v: DescriptorView| #[trigger] body_at(v, s@, end as int) ==> (r matches Some(d) && d@ == v),
{
    let ghost t = s@.subrange(0, end as int);
    let (kind, pre) = match read_kind(s, end) {
        Some(x) => x,
        None => {
            return None;
        },
    };
    let fp = match read_fingerprint(s, pre, end) {
        Some(f) => f,
        None => {
            return None;
        },
    };
    let po = pre + 8;
    let c = find_char(s, po, end, ']');
    proof {
        assert forall|v: DescriptorView| #[trigger] body_at(v, s@, end as int) implies c == pos_close(v)
            && c < end && s@.subrange(po as int, c as int) == path_text(v.origin) by {
            lemma_body_layout(v);
            assert(t[pos_close(v)] == ']');
            assert(s@[pos_close(v)] == t[pos_close(v)]);
            assert forall|i: int| po <= i < pos_close(v) implies s@[i] != ']' by {
                assert(s@[i] == t[i]);
            }
            assert(s@.subrange(po as int, pos_close(v)) =~= t.subrange(pos_origin(v), pos_close(v)));
            assert(pos_close(v) < end);
        }
    }
    if c == end {
        return None;
    }
    let origin = match parse_path_range(s, po, c) {
        Some(o) => o,
        None => {
            return None;
        },
    };
    let (key, tail, wildcard) = match read_rest(s, c, end) {
        Some(x) => x,
        None => {
            return None;
        },
    };
    let d = Descriptor { kind, origin: KeyOrigin { fingerprint: fp, path: origin }, key, tail, wildcard };
    proof {
        assert forall|v: DescriptorView| #[trigger] body_at(v, s@, end as int) implies d@ == v by {
            assert(d@.fingerprint =~= v.fingerprint);
        }
    }
    Some(d)
}

/// Whether the descriptor's own rules hold of `d`.
pub fn is_well_formed(d: &Descriptor) -> (r: bool)
    ensures
        r == descriptor_wf(d@),
{
    let mut i: usize = 0;
    while i < d.origin.path.len()
        invariant
            i <= d.origin.path@.len(),
            forall|j: int| 0 <= j < i ==> (#[trigger] d.origin.path@[j]).wf(),
        decreases d.origin.path@.len() - i,
    {
        if d.origin.path[i].index >= crate::path::HARDENED_LIMIT {
            return false;
        }
        i += 1;
    }
    let mut i: usize = 0;
    while i < d.tail.len()
        invariant
            i <= d.tail@.len(),
            forall|j: int| 0 <= j < i ==> (#[trigger] d.tail@[j]).wf() && !d.tail@[j].hardened,
        decreases d.tail@.len() - i,
    {
        if d.tail[i].index >= crate::path::HARDENED_LIMIT || d.tail[i].hardened {
            return false;
        }
        i += 1;
    }
    let key = chars_of(d.key.as_str());
    if key.len() == 0 {
        return false;
    }
    let mut i: usize = 0;
    while i < key.len()
        invariant
            i <= key@.len(),
            key@ == d.key@,
            forall|j: int| 0 <= j < i ==> is_key_char(#[trigger] key@[j]),
        decreases key@.len() - i,
    {
        let c = key[i];
        if !(('0' <= c && c <= '9') || ('a' <= c && c <= 'z') || ('A' <= c && c <= 'Z')) {
            return false;
        }
        i += 1;
    }
    true
}

/// Whether `s` is the text of `v`, with or without its checksum.
pub open spec fn has_text(v: DescriptorView, s: Seq<char>) -> bool {
    s == body_text(v) || s == full_text(v)
}

impl Descriptor {
    /// The descriptor's text: `template([fingerprint/path]key/tail/*)`.
    pub fn to_string(&self) -> (r: String)
        ensures
            r@ == body_text(self@),
    {
        let mut out: Vec<char> = Vec::new();
        push_body(&mut out, self);
        assert(out@ =~= body_text(self@));
        string_of(&out)
    }

    /// The descriptor's text followed by `#` and its checksum.
    pub fn to_checksummed_string(&self) -> (r: String)
        requires
            descriptor_wf(self@),
        ensures
            r@ == full_text(self@),
    {
        let mut out: Vec<char> = Vec::new();
        push_body(&mut out, self);
        assert(out@ =~= body_text(self@));
        let body = string_of(&out);
        proof {
            lemma_body_accepted(self@);
        }
        let cs = checksum(body.as_str()).unwrap();
        out.push('#');
        let cc = chars_of(cs.as_str());
        push_str_chars(&mut out, &cc);
        assert(out@ =~= full_text(self@));
        string_of(&out)
    }

    /// Reads a descriptor from its text, with or without a checksum. Yields
    /// the descriptor exactly when the text is the text of a well-formed one.
    pub fn parse(text: &str) -> (r: Result<Descriptor, InputError>)
        ensures
            r matches Ok(d) ==> descriptor_wf(d@) && has_text(d@, text@),
            forall|v: DescriptorView|
                descriptor_wf(v) && #[trigger] has_text(v, text@) ==> (r matches Ok(d) && d@ == v),
            r matches Err(e) ==> e == InputError::MalformedDescriptor,
    {
        let s = chars_of(text);
        let h = find_char(&s, 0, s.len(), '#');
        proof {
            assert forall|v: DescriptorView|
                descriptor_wf(v) && #[trigger] has_text(v, text@) implies h == body_text(v).len()
                && body_at(v, s@, h as int) by {
                lemma_body_accepted(v);
                let b = body_text(v);
                assert forall|i: int| 0 <= i < b.len() implies s@[i] != '#' by {
                    assert(s@[i] == b[i]);
                }
                if text@ == full_text(v) {
                    assert(s@[b.len() as int] == '#');
                }
                assert(s@.subrange(0, b.len() as int) =~= b);
            }
        }
        let d = match read_body(&s, h) {
            Some(d) => d,
            None => {
                return Err(InputError::MalformedDescriptor);
            },
        };
        if !is_well_formed(&d) {
            return Err(InputError::MalformedDescriptor);
        }
        let mut out: Vec<char> = Vec::new();
        push_body(&mut out, &d);
        assert(out@ =~= body_text(d@));
        if !(out.len() == h && matches_at(&s, 0, &out)) {
            return Err(InputError::MalformedDescriptor);
        }
        assert(s@.subrange(0, h as int) == body_text(d@));
        if h == s.len() {
            assert(s@ =~= s@.subrange(0, h as int));
            return Ok(d);
        }
        let body = string_of(&out);
        proof {
            lemma_body_accepted(d@);
        }
        let cs = match checksum(body.as_str()) {
            Some(c) => c,
            None => {
                return Err(InputError::MalformedDescriptor);
            },
        };
        let cc = chars_of(cs.as_str());
        let given = sub_chars(&s, h + 1, s.len());
        if crate::text::chars_equal(&cc, &given) {
            assert(s@ =~= body_text(d@) + seq!['#'] + descriptor_checksum(body_text(d@)));
            Ok(d)
        } else {
            proof {
                assert forall|v: DescriptorView|
                    descriptor_wf(v) && #[trigger] has_text(v, text@) implies false by {
                    assert(d@ == v);
                    if text@ == full_text(v) {
                        assert(given@ =~= descriptor_checksum(body_text(v)));
                    }
                }
            }
            Err(InputError::MalformedDescriptor)
        }
    }
}

} // verus!
