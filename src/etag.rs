//! Entity tags of images, and the `If-None-Match` test against them.

use vstd::prelude::*;
use crate::text::{chars_of, push_char};

verus! {

/// The lowercase hex SHA-256 digest of the UTF-8 text of `s`.
pub uninterp spec fn sha256_hex(s: Seq<char>) -> Seq<char>;

/// A lowercase hexadecimal digit.
pub open spec fn is_lower_hex(c: char) -> bool {
    (48 <= c as u32 <= 57) || (97 <= c as u32 <= 102)
}

/// Relies on sha256::digest over a `&str`: `hex::encode` of the SHA-256 digest
/// of its bytes, a function of the text alone, written in lowercase hex digits.
#[verifier::external_body]
fn sha256_digest(s: &str) -> (r: String)
    ensures
        r@ == sha256_hex(s@),
        forall|k: int| 0 <= k < r@.len() ==> is_lower_hex(#[trigger] r@[k]),
{
    sha256::digest(s)
}

/// The decimal digit for `d < 10`.
pub open spec fn digit_char(d: nat) -> char {
    if d == 0 { '0' }
    else if d == 1 { '1' }
    else if d == 2 { '2' }
    else if d == 3 { '3' }
    else if d == 4 { '4' }
    else if d == 5 { '5' }
    else if d == 6 { '6' }
    else if d == 7 { '7' }
    else if d == 8 { '8' }
    else { '9' }
}

/// `n` written in decimal, without leading zeros.
pub open spec fn decimal(n: nat) -> Seq<char>
    decreases n,
{
    if n < 10 {
        seq![digit_char(n)]
    } else {
        decimal(n / 10).push(digit_char(n % 10))
    }
}

fn digit_char_exec(d: usize) -> (c: char)
    requires
        d < 10,
    ensures
        c == digit_char(d as nat),
{
    if d == 0 { '0' }
    else if d == 1 { '1' }
    else if d == 2 { '2' }
    else if d == 3 { '3' }
    else if d == 4 { '4' }
    else if d == 5 { '5' }
    else if d == 6 { '6' }
    else if d == 7 { '7' }
    else if d == 8 { '8' }
    else { '9' }
}

fn push_decimal(s: &mut String, n: usize)
    ensures
        final(s)@ == old(s)@ + decimal(n as nat),
    decreases n,
{
    if n >= 10 {
        push_decimal(s, n / 10);
    }
    push_char(s, digit_char_exec(n % 10));
    assert(final(s)@ =~= old(s)@ + decimal(n as nat));
}

/// The text that an image's entity tag is the digest of:
/// `base:group:image:path`.
pub open spec fn fingerprint_text(base: Seq<char>, group_idx: nat, image_idx: nat, path: Seq<char>) -> Seq<char> {
    base + seq![':'] + decimal(group_idx) + seq![':'] + decimal(image_idx) + seq![':'] + path
}

/// The entity tag of an image: its fingerprint digest in double quotes.
pub open spec fn etag_of(base: Seq<char>, group_idx: nat, image_idx: nat, path: Seq<char>) -> Seq<char> {
    seq!['"'] + sha256_hex(fingerprint_text(base, group_idx, image_idx, path)) + seq!['"']
}

/// Builds `fingerprint_text`.
pub fn fingerprint_source(base: &str, group_idx: usize, image_idx: usize, path: &str) -> (r: String)
    ensures
        r@ == fingerprint_text(base@, group_idx as nat, image_idx as nat, path@),
{
    let mut s = base.to_owned();
    push_char(&mut s, ':');
    push_decimal(&mut s, group_idx);
    push_char(&mut s, ':');
    push_decimal(&mut s, image_idx);
    push_char(&mut s, ':');
    s.append(path);
    assert(s@ =~= fingerprint_text(base@, group_idx as nat, image_idx as nat, path@));
    s
}

/// The entity tag of the image at `(group_idx, image_idx)` whose path is `path`,
/// for the report directory `base`.
pub fn etag_for(base: &str, group_idx: usize, image_idx: usize, path: &str) -> (r: String)
    ensures
        r@ == etag_of(base@, group_idx as nat, image_idx as nat, path@),
{
    let src = fingerprint_source(base, group_idx, image_idx, path);
    let hex = sha256_digest(src.as_str());
    let mut r = String::new();
    push_char(&mut r, '"');
    r.append(hex.as_str());
    push_char(&mut r, '"');
    assert(r@ =~= etag_of(base@, group_idx as nat, image_idx as nat, path@));
    r
}

/// A space or a tab.
pub open spec fn is_ows(c: char) -> bool {
    c == ' ' || c == '\t'
}

/// The first position from `i` on that holds no space or tab.
pub open spec fn lead(s: Seq<char>, i: int) -> int
    decreases s.len() - i,
{
    if 0 <= i < s.len() && is_ows(s[i]) {
        lead(s, i + 1)
    } else {
        i
    }
}

/// The end of `s[lo..j]` once trailing spaces and tabs are dropped.
pub open spec fn trail(s: Seq<char>, j: int, lo: int) -> int
    decreases j - lo,
{
    if lo < j <= s.len() && is_ows(s[j - 1]) {
        trail(s, j - 1, lo)
    } else {
        j
    }
}

/// `s` without leading and trailing spaces and tabs.
pub open spec fn trim_ows(s: Seq<char>) -> Seq<char> {
    let a = lead(s, 0);
    s.subrange(a, trail(s, s.len() as int, a))
}

/// Whether one entry of an `If-None-Match` list names the entity tag `tag`,
/// in its strong form or in its weak form `W/tag`.
pub open spec fn names_tag(entry: Seq<char>, tag: Seq<char>) -> bool {
    let e = trim_ows(entry);
    e == tag || e == seq!['W', '/'] + tag
}

/// Whether an entry of the comma-separated list `h` names `tag`, reading on
/// from a point where the entry so far is `cur` and `quoted` tells whether a
/// quoted string is open (a comma inside one separates nothing).
pub open spec fn some_entry_names(h: Seq<char>, cur: Seq<char>, quoted: bool, tag: Seq<char>) -> bool
    decreases h.len(),
{
    if h.len() == 0 {
        names_tag(cur, tag)
    } else if !quoted && h[0] == ',' {
        names_tag(cur, tag) || some_entry_names(h.drop_first(), Seq::empty(), false, tag)
    } else {
        let q = if quoted { h[0] != '"' } else { h[0] == '"' };
        some_entry_names(h.drop_first(), cur.push(h[0]), q, tag)
    }
}

/// Whether an `If-None-Match` value matches the entity tag `tag`: it is `*`,
/// or one of its entries names the tag.
pub open spec fn precondition_matches(header: Seq<char>, tag: Seq<char>) -> bool {
    header == seq!['*'] || some_entry_names(header, Seq::empty(), false, tag)
}

proof fn lemma_lead_trail(s: Seq<char>, i: int, j: int, lo: int)
    requires
        0 <= i <= s.len(),
        0 <= lo <= j <= s.len(),
    ensures
        i <= lead(s, i) <= s.len(),
        lo <= trail(s, j, lo) <= j,
    decreases s.len() - i + j - lo,
{
    if 0 <= i < s.len() && is_ows(s[i]) {
        lemma_lead_trail(s, i + 1, j, lo);
    } else if lo < j <= s.len() && is_ows(s[j - 1]) {
        lemma_lead_trail(s, i, j - 1, lo);
    }
}

/// Whether `a[from..to]` is `b`.
fn eq_range(a: &Vec<char>, from: usize, to: usize, b: &Vec<char>) -> (r: bool)
    requires
        from <= to <= a@.len(),
    ensures
        r == (a@.subrange(from as int, to as int) == b@),
{
    if to - from != b.len() {
        return false;
    }
    let mut k: usize = 0;
    while k < b.len()
        invariant
            from <= to <= a@.len(),
            to - from == b@.len(),
            k <= b@.len(),
            forall|m: int| 0 <= m < k ==> a@[from + m] == b@[m],
        decreases b@.len() - k,
    {
        if a[from + k] != b[k] {
            assert(a@.subrange(from as int, to as int)[k as int] != b@[k as int]);
            return false;
        }
        k = k + 1;
    }
    assert(a@.subrange(from as int, to as int) =~= b@);
    true
}

/// Decides `names_tag`.
fn names_tag_exec(e: &Vec<char>, tag: &Vec<char>) -> (r: bool)
    ensures
        r == names_tag(e@, tag@),
{
    let mut a: usize = 0;
    while a < e.len() && (e[a] == ' ' || e[a] == '\t')
        invariant
            a <= e@.len(),
            lead(e@, 0) == lead(e@, a as int),
        decreases e@.len() - a,
    {
        a = a + 1;
    }
    let mut b: usize = e.len();
    while b > a && (e[b - 1] == ' ' || e[b - 1] == '\t')
        invariant
            a <= b <= e@.len(),
            a == lead(e@, 0),
            trail(e@, e@.len() as int, a as int) == trail(e@, b as int, a as int),
        decreases b,
    {
        b = b - 1;
    }
    let ghost t = trim_ows(e@);
    assert(t == e@.subrange(a as int, b as int));
    if eq_range(e, a, b, tag) {
        return true;
    }
    if b - a >= 2 && b - a - 2 == tag.len() && e[a] == 'W' && e[a + 1] == '/' {
        let r = eq_range(e, a + 2, b, tag);
        assert(r ==> t =~= seq!['W', '/'] + tag@);
        assert(t == seq!['W', '/'] + tag@ ==> e@.subrange(a + 2, b as int) =~= tag@) by {
            if t == seq!['W', '/'] + tag@ {
                assert forall|m: int| 0 <= m < tag@.len() implies e@.subrange(a + 2, b as int)[m] == tag@[m] by {
                    assert(t[m + 2] == tag@[m]);
                }
            }
        }
        r
    } else {
        assert(t != seq!['W', '/'] + tag@) by {
            if t == seq!['W', '/'] + tag@ {
                assert(t[0] == 'W' && t[1] == '/');
            }
        }
        false
    }
}

proof fn lemma_quoted_run(h: Seq<char>, rest: Seq<char>, cur: Seq<char>, tag: Seq<char>)
    requires
        forall|k: int| 0 <= k < h.len() ==> #[trigger] h[k] != '"',
    ensures
        some_entry_names(h + rest, cur, true, tag) == some_entry_names(rest, cur + h, true, tag),
    decreases h.len(),
{
    if h.len() == 0 {
        assert(h + rest =~= rest);
        assert(cur + h =~= cur);
    } else {
        assert((h + rest)[0] == h[0]);
        assert((h + rest).drop_first() =~= h.drop_first() + rest);
        lemma_quoted_run(h.drop_first(), rest, cur.push(h[0]), tag);
        assert(cur.push(h[0]) + h.drop_first() =~= cur + h);
    }
}

/// An entity tag made of a quoted hex digest, sent back as the whole
/// `If-None-Match` value, matches itself.
pub(crate) proof fn lemma_tag_names_itself(hex: Seq<char>)
    requires
        forall|k: int| 0 <= k < hex.len() ==> is_lower_hex(#[trigger] hex[k]),
    ensures
        precondition_matches(seq!['"'] + hex + seq!['"'], seq!['"'] + hex + seq!['"']),
{
    let tag = seq!['"'] + hex + seq!['"'];
    assert(tag[0] == '"');
    assert(tag.drop_first() =~= hex + seq!['"']);
    assert forall|k: int| 0 <= k < hex.len() implies #[trigger] hex[k] != '"' by {
        assert(is_lower_hex(hex[k]));
    }
    lemma_quoted_run(hex, seq!['"'], seq!['"'], tag);
    let last = seq!['"'];
    assert(last[0] == '"');
    assert(last.drop_first() =~= Seq::<char>::empty());
    assert((seq!['"'] + hex).push('"') =~= tag);
    assert(lead(tag, 0) == 0);
    assert(tag[tag.len() - 1] == '"');
    assert(trail(tag, tag.len() as int, 0) == tag.len());
    assert(trim_ows(tag) =~= tag);
    assert(names_tag(tag, tag));
    assert(some_entry_names(Seq::<char>::empty(), tag, false, tag));
    assert(some_entry_names(last, seq!['"'] + hex, true, tag));
    assert(Seq::<char>::empty().push('"') =~= seq!['"']);
    assert(some_entry_names(tag.drop_first(), seq!['"'], true, tag));
    assert(some_entry_names(tag, Seq::empty(), false, tag));
}

/// Decides `precondition_matches`.
pub fn precondition_holds(header: &str, tag: &str) -> (r: bool)
    ensures
        r == precondition_matches(header@, tag@),
{
    let h = chars_of(header);
    let t = chars_of(tag);
    if h.len() == 1 && h[0] == '*' {
        assert(h@ =~= seq!['*']);
        return true;
    }
    assert(h@ != seq!['*']) by {
        if h@ == seq!['*'] {
            assert(h@.len() == 1 && h@[0] == '*');
        }
    }
    let mut found = false;
    let mut cur: Vec<char> = Vec::new();
    let mut quoted = false;
    let mut i: usize = 0;
    assert(h@.skip(0) =~= h@);
    while i < h.len()
        invariant
            i <= h@.len(),
            h@ == header@,
            t@ == tag@,
            some_entry_names(h@, Seq::empty(), false, t@) == (found || some_entry_names(
                h@.skip(i as int),
                cur@,
                quoted,
                t@,
            )),
        decreases h@.len() - i,
    {
        let c = h[i];
        assert(h@.skip(i as int)[0] == c);
        assert(h@.skip(i as int).drop_first() =~= h@.skip(i + 1));
        if !quoted && c == ',' {
            if names_tag_exec(&cur, &t) {
                found = true;
            }
            cur = Vec::new();
        } else {
            quoted = if quoted { c != '"' } else { c == '"' };
            cur.push(c);
        }
        i = i + 1;
    }
    assert(h@.skip(i as int) =~= Seq::<char>::empty());
    found || names_tag_exec(&cur, &t)
}

} // verus!
