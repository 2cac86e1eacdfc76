use vstd::prelude::*;

verus! {

broadcast use vstd::std_specs::vec::axiom_spec_len;

/// The bytes of an ASCII string, character by character.
pub open spec fn ascii_bytes(cs: Seq<char>) -> Seq<u8> {
    Seq::new(cs.len(), |i: int| cs[i] as u8)
}

/// Builds the byte form of an ASCII string literal.
pub fn tok(s: &str) -> (r: Vec<u8>)
    requires
        vstd::string::is_ascii(s),
    ensures
        r@ == ascii_bytes(s@),
{
    broadcast use vstd::string::is_ascii_spec_bytes;

    let b = s.as_bytes();
    let r = vstd::slice::slice_to_vec(b);
    proof {
        assert(r@ =~= ascii_bytes(s@));
    }
    r
}

/// The deep view of a vector of byte strings, as a sequence of byte
/// sequences.
pub open spec fn dv(v: Seq<Vec<u8>>) -> Seq<Seq<u8>> {
    v.map_values(|e: Vec<u8>| e@)
}

pub proof fn lemma_dv_push(v: Seq<Vec<u8>>, e: Vec<u8>)
    ensures
        dv(v.push(e)) == dv(v).push(e@),
{
    assert(dv(v.push(e)) =~= dv(v).push(e@));
}

/// Splitting a byte string at every occurrence of `sep`. The result always
/// has at least one element; `sep` itself appears in none of them.
pub open spec fn spec_split(s: Seq<u8>, sep: u8) -> Seq<Seq<u8>>
    decreases s.len(),
{
    if s.len() == 0 {
        seq![Seq::<u8>::empty()]
    } else if s[0] == sep {
        seq![Seq::<u8>::empty()] + spec_split(s.skip(1), sep)
    } else {
        let rest = spec_split(s.skip(1), sep);
        seq![seq![s[0]] + rest[0]] + rest.skip(1)
    }
}

pub proof fn lemma_split_len(s: Seq<u8>, sep: u8)
    ensures
        spec_split(s, sep).len() >= 1,
    decreases s.len(),
{
    if s.len() != 0 {
        lemma_split_len(s.skip(1), sep);
    }
}

/// Glues the first part onto the front of the first piece of `parts`.
pub open spec fn prepend_first(c: Seq<u8>, parts: Seq<Seq<u8>>) -> Seq<Seq<u8>> {
    seq![c + parts[0]] + parts.skip(1)
}

proof fn lemma_prepend_empty(parts: Seq<Seq<u8>>)
    requires
        parts.len() >= 1,
    ensures
        prepend_first(Seq::<u8>::empty(), parts) == parts,
{
    assert(Seq::<u8>::empty() + parts[0] =~= parts[0]);
    assert(prepend_first(Seq::<u8>::empty(), parts) =~= parts);
}

pub fn split_bytes(s: &Vec<u8>, sep: u8) -> (r: Vec<Vec<u8>>)
    ensures
        dv(r@) == spec_split(s@, sep),
        r@.len() >= 1,
{
    let mut r: Vec<Vec<u8>> = Vec::new();
    let mut cur: Vec<u8> = Vec::new();
    let mut i: usize = 0;
    proof {
        lemma_split_len(s@, sep);
        assert(s@.skip(0) =~= s@);
        lemma_prepend_empty(spec_split(s@, sep));
        assert(dv(r@) + prepend_first(cur@, spec_split(s@.skip(0), sep)) =~= spec_split(s@, sep));
    }
    while i < s.len()
        invariant
            i <= s.len(),
            dv(r@) + prepend_first(cur@, spec_split(s@.skip(i as int), sep)) == spec_split(s@, sep),
        decreases s.len() - i,
    {
        proof {
            assert(s@.skip(i as int).len() > 0);
            assert(s@.skip(i as int)[0] == s@[i as int]);
            assert(s@.skip(i as int).skip(1) =~= s@.skip(i as int + 1));
            lemma_split_len(s@.skip(i as int + 1), sep);
        }
        let ghost rest = spec_split(s@.skip(i as int + 1), sep);
        let ghost pre = dv(r@) + prepend_first(cur@, spec_split(s@.skip(i as int), sep));
        if s[i] == sep {
            proof {
                assert(spec_split(s@.skip(i as int), sep) =~= seq![Seq::<u8>::empty()] + rest);
                lemma_dv_push(r@, cur);
                lemma_prepend_empty(rest);
                assert(cur@ + Seq::<u8>::empty() =~= cur@);
                assert((seq![cur@ + Seq::<u8>::empty()] + (seq![Seq::<u8>::empty()] + rest).skip(
                    1,
                )) =~= seq![cur@] + rest);
                assert(dv(r@.push(cur)) + prepend_first(Seq::<u8>::empty(), rest) =~= pre);
            }
            r.push(cur);
            cur = Vec::new();
        } else {
            let ghost oldcur = cur@;
            proof {
                assert(spec_split(s@.skip(i as int), sep) =~= seq![seq![s@[i as int]] + rest[0]]
                    + rest.skip(1));
                assert(oldcur + (seq![s@[i as int]] + rest[0]) =~= oldcur.push(s@[i as int])
                    + rest[0]);
                assert((seq![seq![s@[i as int]] + rest[0]] + rest.skip(1)).skip(1) =~= rest.skip(
                    1,
                ));
                assert(dv(r@) + prepend_first(oldcur.push(s@[i as int]), rest) =~= pre);
            }
            cur.push(s[i]);
        }
        i = i + 1;
    }
    proof {
        assert(s@.skip(i as int) =~= Seq::<u8>::empty());
        assert(spec_split(s@.skip(i as int), sep) =~= seq![Seq::<u8>::empty()]);
        assert(cur@ + Seq::<u8>::empty() =~= cur@);
        assert(prepend_first(cur@, seq![Seq::<u8>::empty()]) =~= seq![cur@]);
        lemma_dv_push(r@, cur);
        assert(dv(r@.push(cur)) =~= dv(r@) + seq![cur@]);
    }
    r.push(cur);
    r
}

/// Joining byte strings with `sep` between consecutive pieces.
pub open spec fn spec_join(parts: Seq<Seq<u8>>, sep: u8) -> Seq<u8>
    decreases parts.len(),
{
    if parts.len() == 0 {
        Seq::<u8>::empty()
    } else if parts.len() == 1 {
        parts[0]
    } else {
        parts[0] + seq![sep] + spec_join(parts.skip(1), sep)
    }
}

pub fn join_bytes(parts: &Vec<Vec<u8>>, sep: u8) -> (r: Vec<u8>)
    ensures
        r@ == spec_join(dv(parts@), sep),
{
    let ghost all = dv(parts@);
    let mut r: Vec<u8> = Vec::new();
    if parts.len() == 0 {
        return r;
    }
    let mut i: usize = 0;
    proof {
        assert(all.skip(0) =~= all);
    }
    while i < parts.len()
        invariant
            i <= parts.len(),
            parts@.len() >= 1,
            all == dv(parts@),
            i < parts.len() ==> r@ + spec_join(all.skip(i as int), sep) == spec_join(all, sep),
            i == parts.len() ==> r@ == spec_join(all, sep),
        decreases parts.len() - i,
    {
        proof {
            assert(all.skip(i as int).len() == parts@.len() - i);
            assert(all.skip(i as int)[0] == parts@[i as int]@);
        }
        // append parts[i]
        let piece = &parts[i];
        let mut k: usize = 0;
        let ghost r0 = r@;
        while k < piece.len()
            invariant
                k <= piece.len(),
                r@ == r0 + piece@.take(k as int),
            decreases piece.len() - k,
        {
            r.push(piece[k]);
            k = k + 1;
        }
        proof {
            assert(piece@.take(piece@.len() as int) =~= piece@);
        }
        if i + 1 < parts.len() {
            r.push(sep);
            proof {
                assert(all.skip(i as int).skip(1) =~= all.skip(i as int + 1));
                assert(spec_join(all.skip(i as int), sep) == all.skip(i as int)[0] + seq![sep]
                    + spec_join(all.skip(i as int + 1), sep));
                assert(r@ + spec_join(all.skip(i as int + 1), sep) =~= r0 + (all.skip(i as int)[0]
                    + seq![sep] + spec_join(all.skip(i as int + 1), sep)));
            }
        } else {
            proof {
                assert(all.skip(i as int).len() == 1);
                assert(spec_join(all.skip(i as int), sep) == all.skip(i as int)[0]);
                assert(r@ =~= r0 + spec_join(all.skip(i as int), sep));
            }
        }
        i = i + 1;
    }
    r
}

/// Whether `needle` occurs as a contiguous run inside `hay`.
pub open spec fn spec_contains_seq(hay: Seq<u8>, needle: Seq<u8>) -> bool {
    exists|i: int|
        0 <= i && i + needle.len() <= hay.len() && #[trigger] hay.subrange(i, i + needle.len())
            == needle
}

/// Whether `needle` starts at offset `i` of `hay`.
fn match_at(hay: &Vec<u8>, i: usize, needle: &Vec<u8>) -> (r: bool)
    requires
        i <= hay@.len(),
    ensures
        r == (i + needle@.len() <= hay@.len() && hay@.subrange(
            i as int,
            i as int + needle@.len(),
        ) == needle@),
{
    if hay.len() - i < needle.len() {
        return false;
    }
    let mut k: usize = 0;
    while k < needle.len()
        invariant
            k <= needle@.len(),
            i + needle@.len() <= hay@.len(),
            hay@.subrange(i as int, i as int + k as int) == needle@.take(k as int),
        decreases needle.len() - k,
    {
        proof {
            assert(hay@.len() == hay.len());
            assert(i + k < hay@.len());
        }
        if hay[i + k] != needle[k] {
            proof {
                assert(hay@.subrange(i as int, i as int + needle@.len())[k as int] != needle@[k as int]);
            }
            return false;
        }
        proof {
            assert(hay@.subrange(i as int, i as int + k as int + 1) =~= hay@.subrange(
                i as int,
                i as int + k as int,
            ).push(hay@[i as int + k as int]));
            assert(needle@.take(k as int + 1) =~= needle@.take(k as int).push(needle@[k as int]));
        }
        k = k + 1;
    }
    proof {
        assert(hay@.subrange(i as int, i as int + needle@.len()) =~= needle@.take(
            needle@.len() as int,
        ));
        assert(needle@.take(needle@.len() as int) =~= needle@);
    }
    true
}

pub fn contains_seq(hay: &Vec<u8>, needle: &Vec<u8>) -> (r: bool)
    ensures
        r == spec_contains_seq(hay@, needle@),
{
    let mut i: usize = 0;
    if needle.len() == 0 {
        proof {
            assert(hay@.subrange(0, 0 + needle@.len() as int) =~= needle@);
        }
        return true;
    }
    if needle.len() > hay.len() {
        return false;
    }
    while i <= hay.len() - needle.len()
        invariant
            1 <= needle@.len() <= hay@.len(),
            i <= hay@.len() - needle@.len() + 1,
            forall|j: int|
                0 <= j < i ==> #[trigger] hay@.subrange(j, j + needle@.len()) != needle@,
        decreases hay.len() + 1 - needle.len() - i,
    {
        if match_at(hay, i, needle) {
            return true;
        }
        i = i + 1;
    }
    false
}

/// `hay` with every occurrence of `needle` removed, scanning left to right
/// and never rescanning the text that replaced an occurrence.
pub open spec fn spec_remove_all(s: Seq<u8>, p: Seq<u8>) -> Seq<u8>
    decreases s.len(),
{
    if p.len() == 0 || s.len() < p.len() {
        s
    } else if s.subrange(0, p.len() as int) == p {
        spec_remove_all(s.skip(p.len() as int), p)
    } else {
        seq![s[0]] + spec_remove_all(s.skip(1), p)
    }
}

pub fn remove_all(s: &Vec<u8>, p: &Vec<u8>) -> (r: Vec<u8>)
    requires
        p@.len() >= 1,
    ensures
        r@ == spec_remove_all(s@, p@),
{
    let mut r: Vec<u8> = Vec::new();
    let mut i: usize = 0;
    proof {
        assert(s@.skip(0) =~= s@);
    }
    while i < s.len()
        invariant
            p@.len() >= 1,
            i <= s@.len(),
            r@ + spec_remove_all(s@.skip(i as int), p@) == spec_remove_all(s@, p@),
        decreases s.len() - i,
    {
        let ghost tail = s@.skip(i as int);
        if match_at(s, i, p) {
            proof {
                assert(tail.subrange(0, p@.len() as int) =~= s@.subrange(
                    i as int,
                    i as int + p@.len(),
                ));
                assert(tail.skip(p@.len() as int) =~= s@.skip(i as int + p@.len()));
                assert(spec_remove_all(tail, p@) == spec_remove_all(
                    s@.skip(i as int + p@.len()),
                    p@,
                ));
            }
            i = i + p.len();
        } else {
            proof {
                if tail.len() >= p@.len() {
                    assert(tail.subrange(0, p@.len() as int) =~= s@.subrange(
                        i as int,
                        i as int + p@.len(),
                    ));
                }
                assert(tail.skip(1) =~= s@.skip(i as int + 1));
                assert(spec_remove_all(tail, p@) == seq![s@[i as int]] + spec_remove_all(
                    s@.skip(i as int + 1),
                    p@,
                ));
                assert(r@.push(s@[i as int]) + spec_remove_all(s@.skip(i as int + 1), p@) =~= r@
                    + spec_remove_all(tail, p@));
            }
            r.push(s[i]);
            i = i + 1;
        }
    }
    proof {
        assert(s@.skip(i as int) =~= Seq::<u8>::empty());
        assert(spec_remove_all(s@.skip(i as int), p@) =~= Seq::<u8>::empty());
        assert(r@ + Seq::<u8>::empty() =~= r@);
    }
    r
}

/// ASCII whitespace, the characters `str::trim` strips from ASCII text.
pub open spec fn is_ws(b: u8) -> bool {
    b == 32 || b == 9 || b == 10 || b == 13 || b == 11 || b == 12
}

pub open spec fn spec_trim_front(s: Seq<u8>) -> Seq<u8>
    decreases s.len(),
{
    if s.len() > 0 && is_ws(s[0]) {
        spec_trim_front(s.skip(1))
    } else {
        s
    }
}

pub open spec fn spec_trim_back(s: Seq<u8>) -> Seq<u8>
    decreases s.len(),
{
    if s.len() > 0 && is_ws(s.last()) {
        spec_trim_back(s.drop_last())
    } else {
        s
    }
}

/// The byte string with leading and trailing ASCII whitespace removed.
pub open spec fn spec_trim(s: Seq<u8>) -> Seq<u8> {
    spec_trim_back(spec_trim_front(s))
}

#[verifier::rlimit(100)]
pub fn trim(s: &Vec<u8>) -> (r: Vec<u8>)
    ensures
        r@ == spec_trim(s@),
{
    let mut a: usize = 0;
    proof {
        assert(s@.skip(0) =~= s@);
    }
    while a < s.len() && is_ws_byte(s[a])
        invariant
            a <= s@.len(),
            spec_trim_front(s@.skip(a as int)) == spec_trim_front(s@),
        decreases s.len() - a,
    {
        proof {
            assert(s@.skip(a as int).skip(1) =~= s@.skip(a as int + 1));
        }
        a = a + 1;
    }
    let ghost f = s@.skip(a as int);
    proof {
        if a < s@.len() {
            assert(!is_ws(f[0]));
        }
        assert(spec_trim_front(f) == f);
    }
    let mut b: usize = s.len();
    proof {
        assert(s@.skip(a as int).take(s@.len() - a as int) =~= f);
    }
    while b > a && is_ws_byte(s[b - 1])
        invariant
            a <= b <= s@.len(),
            spec_trim_back(s@.skip(a as int).take(b as int - a as int)) == spec_trim_back(f),
        decreases b,
    {
        proof {
            let cur = s@.skip(a as int).take(b as int - a as int);
            assert(cur.last() == s@[b as int - 1]);
            assert(cur.drop_last() =~= s@.skip(a as int).take(b as int - 1 - a as int));
        }
        b = b - 1;
    }
    let ghost cur = s@.skip(a as int).take(b as int - a as int);
    proof {
        if b > a {
            assert(cur.last() == s@[b as int - 1]);
            assert(!is_ws(cur.last()));
        }
        assert(spec_trim_back(cur) == cur);
    }
    let mut r: Vec<u8> = Vec::new();
    let mut k: usize = a;
    while k < b
        invariant
            a <= k <= b <= s@.len(),
            r@ == s@.skip(a as int).take(k as int - a as int),
        decreases b - k,
    {
        proof {
            assert(s@.skip(a as int).take(k as int + 1 - a as int) =~= s@.skip(a as int).take(
                k as int - a as int,
            ).push(s@[k as int]));
        }
        r.push(s[k]);
        k = k + 1;
    }
    r
}

fn is_ws_byte(b: u8) -> (r: bool)
    ensures
        r == is_ws(b),
{
    b == 32 || b == 9 || b == 10 || b == 13 || b == 11 || b == 12
}

/// Whether `s` begins with `prefix`.
pub open spec fn spec_starts_with(s: Seq<u8>, prefix: Seq<u8>) -> bool {
    s.len() >= prefix.len() && s.subrange(0, prefix.len() as int) == prefix
}

pub fn starts_with(s: &Vec<u8>, prefix: &Vec<u8>) -> (r: bool)
    ensures
        r == spec_starts_with(s@, prefix@),
{
    match_at(s, 0, prefix)
}

/// Byte-for-byte concatenation.
pub fn concat_bytes(a: &Vec<u8>, b: &Vec<u8>) -> (r: Vec<u8>)
    ensures
        r@ == a@ + b@,
{
    let mut r: Vec<u8> = Vec::new();
    let mut i: usize = 0;
    while i < a.len()
        invariant
            i <= a@.len(),
            r@ == a@.take(i as int),
        decreases a.len() - i,
    {
        r.push(a[i]);
        i = i + 1;
    }
    proof {
        assert(a@.take(a@.len() as int) =~= a@);
    }
    let mut j: usize = 0;
    while j < b.len()
        invariant
            j <= b@.len(),
            r@ == a@ + b@.take(j as int),
        decreases b.len() - j,
    {
        proof {
            assert(a@ + b@.take(j as int + 1) =~= (a@ + b@.take(j as int)).push(b@[j as int]));
        }
        r.push(b[j]);
        j = j + 1;
    }
    proof {
        assert(a@ + b@.take(b@.len() as int) =~= a@ + b@);
    }
    r
}

/// The ASCII lower-case form: `A`..`Z` shifted to `a`..`z`, all else kept.
pub open spec fn lower_byte(b: u8) -> u8 {
    if 65 <= b && b <= 90 {
        (b + 32) as u8
    } else {
        b
    }
}

pub open spec fn spec_lower(s: Seq<u8>) -> Seq<u8> {
    s.map_values(|b: u8| lower_byte(b))
}

pub fn lower_ascii(s: &Vec<u8>) -> (r: Vec<u8>)
    ensures
        r@ == spec_lower(s@),
{
    let mut r: Vec<u8> = Vec::new();
    let mut i: usize = 0;
    while i < s.len()
        invariant
            i <= s@.len(),
            r@ == spec_lower(s@.take(i as int)),
        decreases s.len() - i,
    {
        let b = s[i];
        let c: u8 = if 65 <= b && b <= 90 {
            b + 32
        } else {
            b
        };
        proof {
            assert(spec_lower(s@.take(i as int + 1)) =~= spec_lower(s@.take(i as int)).push(
                lower_byte(s@[i as int]),
            ));
        }
        r.push(c);
        i = i + 1;
    }
    proof {
        assert(s@.take(s@.len() as int) =~= s@);
    }
    r
}

/// Every occurrence of `from` replaced by `to`.
pub open spec fn spec_replace_byte(s: Seq<u8>, from: u8, to: u8) -> Seq<u8> {
    s.map_values(|b: u8| if b == from { to } else { b })
}

pub fn replace_byte(s: &Vec<u8>, from: u8, to: u8) -> (r: Vec<u8>)
    ensures
        r@ == spec_replace_byte(s@, from, to),
{
    let mut r: Vec<u8> = Vec::new();
    let mut i: usize = 0;
    while i < s.len()
        invariant
            i <= s@.len(),
            r@ == spec_replace_byte(s@.take(i as int), from, to),
        decreases s.len() - i,
    {
        let b = s[i];
        let c: u8 = if b == from {
            to
        } else {
            b
        };
        proof {
            assert(spec_replace_byte(s@.take(i as int + 1), from, to) =~= spec_replace_byte(
                s@.take(i as int),
                from,
                to,
            ).push(if s@[i as int] == from { to } else { s@[i as int] }));
        }
        r.push(c);
        i = i + 1;
    }
    proof {
        assert(s@.take(s@.len() as int) =~= s@);
    }
    r
}

/// The largest index at which `b` occurs, or -1 if it does not occur.
pub open spec fn spec_last_index_of(s: Seq<u8>, b: u8) -> int
    decreases s.len(),
{
    if s.len() == 0 {
        -1
    } else if s.last() == b {
        s.len() - 1
    } else {
        spec_last_index_of(s.drop_last(), b)
    }
}

pub proof fn lemma_last_index_of(s: Seq<u8>, b: u8)
    ensures
        -1 <= spec_last_index_of(s, b) < s.len(),
        spec_last_index_of(s, b) >= 0 ==> s[spec_last_index_of(s, b)] == b,
        forall|j: int| spec_last_index_of(s, b) < j < s.len() ==> s[j] != b,
    decreases s.len(),
{
    if s.len() > 0 && s.last() != b {
        lemma_last_index_of(s.drop_last(), b);
        assert(forall|j: int|
            0 <= j < s.len() - 1 ==> s[j] == s.drop_last()[j]);
    }
}

pub fn last_index_of(s: &Vec<u8>, b: u8) -> (r: Option<usize>)
    ensures
        match r {
            Some(i) => i < s.len() && i as int == spec_last_index_of(s@, b),
            None => spec_last_index_of(s@, b) == -1,
        },
{
    let mut i: usize = s.len();
    proof {
        assert(s@.take(s@.len() as int) =~= s@);
    }
    while i > 0
        invariant
            i <= s@.len(),
            spec_last_index_of(s@, b) == spec_last_index_of(s@.take(i as int), b),
        decreases i,
    {
        proof {
            let cur = s@.take(i as int);
            assert(cur.last() == s@[i as int - 1]);
            assert(cur.drop_last() =~= s@.take(i as int - 1));
        }
        if s[i - 1] == b {
            return Some(i - 1);
        }
        i = i - 1;
    }
    proof {
        assert(s@.take(0) =~= Seq::<u8>::empty());
    }
    None
}

/// Whether the sequence has no repeated element.
pub open spec fn distinct_seq(s: Seq<Seq<u8>>) -> bool {
    forall|i: int, j: int| 0 <= i < j < s.len() ==> s[i] != s[j]
}

/// Whether `v` contains an element whose bytes equal `x`'s.
pub fn contains_vec(v: &Vec<Vec<u8>>, x: &Vec<u8>) -> (r: bool)
    ensures
        r == dv(v@).contains(x@),
{
    let mut i: usize = 0;
    while i < v.len()
        invariant
            i <= v@.len(),
            forall|j: int| 0 <= j < i ==> dv(v@)[j] != x@,
        decreases v.len() - i,
    {
        if bytes_eq(&v[i], x) {
            proof {
                assert(dv(v@)[i as int] == x@);
            }
            return true;
        }
        i = i + 1;
    }
    false
}

/// Whether byte `b` occurs in `s`.
pub fn contains_byte(s: &Vec<u8>, b: u8) -> (r: bool)
    ensures
        r == s@.contains(b),
{
    let mut i: usize = 0;
    while i < s.len()
        invariant
            i <= s@.len(),
            forall|j: int| 0 <= j < i ==> s@[j] != b,
        decreases s.len() - i,
    {
        if s[i] == b {
            return true;
        }
        i = i + 1;
    }
    false
}

/// Byte-for-byte equality of two byte strings.
pub fn bytes_eq(a: &Vec<u8>, b: &Vec<u8>) -> (r: bool)
    ensures
        r == (a@ == b@),
{
    if a.len() != b.len() {
        return false;
    }
    let mut i: usize = 0;
    while i < a.len()
        invariant
            a@.len() == b@.len(),
            i <= a@.len(),
            forall|j: int| 0 <= j < i ==> a@[j] == b@[j],
        decreases a.len() - i,
    {
        if a[i] != b[i] {
            return false;
        }
        i = i + 1;
    }
    proof {
        assert(a@ =~= b@);
    }
    true
}

/// Byte-for-byte copy.
pub fn copy_bytes(s: &Vec<u8>) -> (r: Vec<u8>)
    ensures
        r@ == s@,
{
    let mut r: Vec<u8> = Vec::new();
    let mut i: usize = 0;
    while i < s.len()
        invariant
            i <= s@.len(),
            r@ == s@.take(i as int),
        decreases s.len() - i,
    {
        r.push(s[i]);
        i = i + 1;
    }
    proof {
        assert(s@.take(s@.len() as int) =~= s@);
    }
    r
}

/// Element-for-element copy of a list of byte strings.
pub fn copy_vecs(s: &Vec<Vec<u8>>) -> (r: Vec<Vec<u8>>)
    ensures
        dv(r@) == dv(s@),
{
    let mut r: Vec<Vec<u8>> = Vec::new();
    let mut i: usize = 0;
    while i < s.len()
        invariant
            i <= s@.len(),
            dv(r@) == dv(s@).take(i as int),
        decreases s.len() - i,
    {
        let e = copy_bytes(&s[i]);
        proof {
            lemma_dv_push(r@, e);
            assert(dv(s@).take(i as int + 1) =~= dv(s@).take(i as int).push(dv(s@)[i as int]));
            assert(dv(r@).push(e@) =~= dv(s@).take(i as int + 1));
        }
        r.push(e);
        i = i + 1;
    }
    proof {
        assert(dv(s@).take(s@.len() as int) =~= dv(s@));
    }
    r
}

} // verus!
