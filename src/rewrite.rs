use vstd::prelude::*;
use crate::address::Address;

verus! {

/// The lowercase hex text of `b`, one digit value (0 to 15) per character, high
/// half of each byte first.
pub open spec fn hex_digits(b: Seq<u8>) -> Seq<u8> {
    Seq::new(2 * b.len(), |i: int| if i % 2 == 0 { b[i / 2] / 16 } else { b[i / 2] % 16 })
}

/// The bytes whose hex text is `d`: each pair of digits makes one byte.
pub open spec fn from_hex_digits(d: Seq<u8>) -> Seq<u8> {
    Seq::new(d.len() / 2, |i: int| (d[2 * i] * 16 + d[2 * i + 1]) as u8)
}

/// `s` with every occurrence of `pat` replaced by `rep`, scanning from the left,
/// occurrences not overlapping, as a text replace does.
pub open spec fn replace_all(s: Seq<u8>, pat: Seq<u8>, rep: Seq<u8>) -> Seq<u8>
    decreases s.len(),
{
    if pat.len() == 0 || s.len() < pat.len() {
        s
    } else if s.subrange(0, pat.len() as int) == pat {
        rep + replace_all(s.subrange(pat.len() as int, s.len() as int), pat, rep)
    } else {
        seq![s[0]] + replace_all(s.subrange(1, s.len() as int), pat, rep)
    }
}

/// The call data `data` with the hex text of `from` replaced by that of `to`
/// wherever it occurs in the hex text of `data`.
pub open spec fn rewritten_data(data: Seq<u8>, from: Seq<u8>, to: Seq<u8>) -> Seq<u8> {
    from_hex_digits(replace_all(hex_digits(data), hex_digits(from), hex_digits(to)))
}

pub open spec fn all_digits(s: Seq<u8>) -> bool {
    forall|i: int| 0 <= i < s.len() ==> s[i] < 16
}

proof fn lemma_replace_all_shape(s: Seq<u8>, pat: Seq<u8>, rep: Seq<u8>)
    requires
        pat.len() == rep.len(),
        all_digits(s),
        all_digits(rep),
    ensures
        replace_all(s, pat, rep).len() == s.len(),
        all_digits(replace_all(s, pat, rep)),
    decreases s.len(),
{
    if pat.len() == 0 || s.len() < pat.len() {
    } else if s.subrange(0, pat.len() as int) == pat {
        let t = s.subrange(pat.len() as int, s.len() as int);
        lemma_replace_all_shape(t, pat, rep);
        let r = rep + replace_all(t, pat, rep);
        assert forall|i: int| 0 <= i < r.len() implies r[i] < 16 by {
            if i >= rep.len() {
                assert(r[i] == replace_all(t, pat, rep)[i - rep.len()]);
            }
        }
    } else {
        let t = s.subrange(1, s.len() as int);
        lemma_replace_all_shape(t, pat, rep);
        let r = seq![s[0]] + replace_all(t, pat, rep);
        assert forall|i: int| 0 <= i < r.len() implies r[i] < 16 by {
            if i >= 1 {
                assert(r[i] == replace_all(t, pat, rep)[i - 1]);
            }
        }
    }
}

proof fn lemma_byte_halves(x: u8, y: u8)
    requires
        x < 16,
        y < 16,
    ensures
        ((x * 16 + y) as u8) / 16 == x,
        ((x * 16 + y) as u8) % 16 == y,
{
    assert(((x * 16 + y) as u8) / 16 == x && ((x * 16 + y) as u8) % 16 == y) by (bit_vector)
        requires
            x < 16,
            y < 16,
    ;
}

/// The hex digits of `b`.
fn to_digits(b: &[u8]) -> (r: Vec<u8>)
    ensures
        r@ == hex_digits(b@),
{
    let mut r: Vec<u8> = Vec::new();
    let mut i: usize = 0;
    while i < b.len()
        invariant
            i <= b@.len(),
            r@.len() == 2 * i,
            forall|j: int| 0 <= j < 2 * i ==> r@[j] == hex_digits(b@)[j],
        decreases b@.len() - i,
    {
        r.push(b[i] / 16);
        r.push(b[i] % 16);
        i += 1;
    }
    assert(r@ =~= hex_digits(b@));
    r
}

/// The bytes whose hex digits are `d`.
fn from_digits(d: &Vec<u8>) -> (r: Vec<u8>)
    requires
        d@.len() % 2 == 0,
        all_digits(d@),
    ensures
        r@ == from_hex_digits(d@),
        hex_digits(r@) == d@,
{
    let mut r: Vec<u8> = Vec::new();
    let mut i: usize = 0;
    let len = d.len();
    let n = len / 2;
    while i < n
        invariant
            len == d@.len(),
            n == d@.len() / 2,
            d@.len() % 2 == 0,
            all_digits(d@),
            i <= n,
            r@.len() == i,
            forall|j: int| 0 <= j < i ==> r@[j] == from_hex_digits(d@)[j],
        decreases n - i,
    {
        r.push(d[2 * i] * 16 + d[2 * i + 1]);
        i += 1;
    }
    assert(r@ =~= from_hex_digits(d@));
    assert forall|j: int| 0 <= j < d@.len() implies hex_digits(r@)[j] == d@[j] by {
        let k = j / 2;
        lemma_byte_halves(d@[2 * k], d@[2 * k + 1]);
    }
    assert(hex_digits(r@) =~= d@);
    r
}

/// Whether `pat` occurs in `s` at position `at`.
fn occurs_at(s: &Vec<u8>, at: usize, pat: &Vec<u8>) -> (r: bool)
    requires
        at + pat@.len() <= s@.len(),
    ensures
        r == (s@.subrange(at as int, at + pat@.len()) == pat@),
{
    let n = s.len();
    let mut j: usize = 0;
    while j < pat.len()
        invariant
            n == s@.len(),
            at + pat@.len() <= s@.len(),
            j <= pat@.len(),
            forall|k: int| 0 <= k < j ==> s@[at + k] == pat@[k],
        decreases pat@.len() - j,
    {
        if s[at + j] != pat[j] {
            assert(s@.subrange(at as int, at + pat@.len())[j as int] != pat@[j as int]);
            return false;
        }
        j += 1;
    }
    assert(s@.subrange(at as int, at + pat@.len()) =~= pat@);
    true
}

/// `s` with every occurrence of `pat` replaced by `rep`.
fn replace_digits(s: &Vec<u8>, pat: &Vec<u8>, rep: &Vec<u8>) -> (r: Vec<u8>)
    ensures
        r@ == replace_all(s@, pat@, rep@),
{
    let mut r: Vec<u8> = Vec::new();
    let n = s.len();
    let m = pat.len();
    let mut i: usize = 0;
    assert(s@.subrange(0, n as int) =~= s@);
    while m > 0 && m <= n - i
        invariant
            n == s@.len(),
            m == pat@.len(),
            i <= n,
            r@ + replace_all(s@.subrange(i as int, n as int), pat@, rep@) == replace_all(
                s@,
                pat@,
                rep@,
            ),
        decreases n - i,
    {
        let ghost t = s@.subrange(i as int, n as int);
        if occurs_at(s, i, pat) {
            assert(t.subrange(0, m as int) =~= s@.subrange(i as int, i + m));
            assert(t.subrange(m as int, t.len() as int) =~= s@.subrange(i + m, n as int));
            let ghost before = r@;
            let mut k: usize = 0;
            while k < rep.len()
                invariant
                    k <= rep@.len(),
                    r@ == before + rep@.subrange(0, k as int),
                decreases rep@.len() - k,
            {
                r.push(rep[k]);
                k += 1;
                assert(r@ =~= before + rep@.subrange(0, k as int));
            }
            assert(rep@.subrange(0, rep@.len() as int) =~= rep@);
            assert(r@ + replace_all(s@.subrange(i + m, n as int), pat@, rep@) =~= before + (rep@
                + replace_all(s@.subrange(i + m, n as int), pat@, rep@)));
            i = i + m;
        } else {
            assert(t.subrange(0, m as int) =~= s@.subrange(i as int, i + m));
            assert(t.subrange(1, t.len() as int) =~= s@.subrange(i + 1, n as int));
            let ghost before = r@;
            r.push(s[i]);
            assert(r@ + replace_all(s@.subrange(i + 1, n as int), pat@, rep@) =~= before + (seq![
                t[0],
            ] + replace_all(s@.subrange(i + 1, n as int), pat@, rep@)));
            i = i + 1;
        }
    }
    assert(replace_all(s@.subrange(i as int, n as int), pat@, rep@) == s@.subrange(
        i as int,
        n as int,
    ));
    while i < n
        invariant
            n == s@.len(),
            i <= n,
            r@ + s@.subrange(i as int, n as int) == replace_all(s@, pat@, rep@),
        decreases n - i,
    {
        let ghost before = r@;
        r.push(s[i]);
        assert(r@ + s@.subrange(i + 1, n as int) =~= before + s@.subrange(i as int, n as int));
        i += 1;
    }
    assert(r@ =~= r@ + s@.subrange(n as int, n as int));
    r
}

/// The call data with every occurrence of the hex text of `from` in the hex text
/// of `data` replaced by the hex text of `to`. The match is textual: it may start
/// in the middle of a byte.
pub fn mock_tx_data(data: &Vec<u8>, from: &Address, to: &Address) -> (r: Vec<u8>)
    ensures
        hex_digits(r@) == replace_all(hex_digits(data@), hex_digits(from@), hex_digits(to@)),
        r@ == rewritten_data(data@, from@, to@),
{
    let text = to_digits(data.as_slice());
    let pat = to_digits(from.bytes.as_slice());
    let rep = to_digits(to.bytes.as_slice());
    let replaced = replace_digits(&text, &pat, &rep);
    proof {
        assert(all_digits(text@)) by {
            assert forall|i: int| 0 <= i < text@.len() implies text@[i] < 16 by {
                assert(data@[i / 2] % 16 < 16);
            }
        }
        assert(all_digits(rep@));
        lemma_replace_all_shape(text@, pat@, rep@);
    }
    from_digits(&replaced)
}

/// `pat` occurs in `s` starting at position `i`.
pub open spec fn occurs_at_spec(s: Seq<u8>, pat: Seq<u8>, i: int) -> bool {
    0 <= i && i + pat.len() <= s.len() && s.subrange(i, i + pat.len()) == pat
}

proof fn lemma_byte_rejoin(b: u8)
    ensures
        ((b / 16) * 16 + b % 16) as u8 == b,
{
    assert(((b / 16) * 16 + b % 16) as u8 == b) by (bit_vector);
}

proof fn lemma_digits_round_trip(b: Seq<u8>)
    ensures
        from_hex_digits(hex_digits(b)) == b,
{
    let d = hex_digits(b);
    assert forall|i: int| 0 <= i < b.len() implies from_hex_digits(d)[i] == b[i] by {
        assert((2 * i) / 2 == i);
        assert((2 * i + 1) / 2 == i);
        lemma_byte_rejoin(b[i]);
    }
    assert(from_hex_digits(d) =~= b);
}

proof fn lemma_digits_concat(a: Seq<u8>, b: Seq<u8>)
    ensures
        hex_digits(a + b) == hex_digits(a) + hex_digits(b),
{
    assert forall|i: int| 0 <= i < 2 * (a.len() + b.len()) implies hex_digits(a + b)[i] == (
    hex_digits(a) + hex_digits(b))[i] by {
        if i >= 2 * a.len() {
            let k = i - 2 * a.len();
            assert(i / 2 == k / 2 + a.len());
            assert(i % 2 == k % 2);
        }
    }
    assert(hex_digits(a + b) =~= hex_digits(a) + hex_digits(b));
}

proof fn lemma_replace_absent(s: Seq<u8>, pat: Seq<u8>, rep: Seq<u8>)
    requires
        forall|i: int| !occurs_at_spec(s, pat, i),
    ensures
        replace_all(s, pat, rep) == s,
    decreases s.len(),
{
    if pat.len() == 0 || s.len() < pat.len() {
    } else {
        assert(!occurs_at_spec(s, pat, 0));
        let t = s.subrange(1, s.len() as int);
        assert forall|i: int| !occurs_at_spec(t, pat, i) by {
            if occurs_at_spec(t, pat, i) {
                assert(s.subrange(i + 1, i + 1 + pat.len()) =~= t.subrange(i, i + pat.len()));
                assert(occurs_at_spec(s, pat, i + 1));
            }
        }
        lemma_replace_absent(t, pat, rep);
        assert(seq![s[0]] + t =~= s);
    }
}

proof fn lemma_replace_after_prefix(p: Seq<u8>, pat: Seq<u8>, rep: Seq<u8>)
    requires
        pat.len() > 0,
        forall|i: int| 0 <= i < p.len() ==> !occurs_at_spec(p + pat, pat, i),
    ensures
        replace_all(p + pat, pat, rep) == p + rep,
    decreases p.len(),
{
    let s = p + pat;
    if p.len() == 0 {
        assert(s =~= pat);
        assert(s.subrange(0, pat.len() as int) =~= pat);
        assert(s.subrange(pat.len() as int, s.len() as int) =~= Seq::<u8>::empty());
        assert(replace_all(Seq::<u8>::empty(), pat, rep) == Seq::<u8>::empty());
        assert(rep + Seq::<u8>::empty() =~= rep);
        assert(p + rep =~= rep);
    } else {
        assert(!occurs_at_spec(s, pat, 0));
        let rest = p.subrange(1, p.len() as int);
        assert(s.subrange(1, s.len() as int) =~= rest + pat);
        assert forall|i: int| 0 <= i < rest.len() implies !occurs_at_spec(rest + pat, pat, i) by {
            if occurs_at_spec(rest + pat, pat, i) {
                assert(s.subrange(i + 1, i + 1 + pat.len()) =~= (rest + pat).subrange(
                    i,
                    i + pat.len(),
                ));
                assert(occurs_at_spec(s, pat, i + 1));
            }
        }
        lemma_replace_after_prefix(rest, pat, rep);
        assert(s[0] == p[0]);
        assert(s.subrange(0, pat.len() as int) != pat);
        assert(replace_all(s, pat, rep) == seq![s[0]] + replace_all(
            s.subrange(1, s.len() as int),
            pat,
            rep,
        ));
        assert(seq![p[0]] + (rest + rep) =~= p + rep);
    }
}

/// Rewriting call data in whose hex text the hex text of `from` does not occur
/// returns the data unchanged.
pub proof fn lemma_rewrite_absent(data: Seq<u8>, from: Seq<u8>, to: Seq<u8>)
    requires
        forall|i: int| !occurs_at_spec(hex_digits(data), hex_digits(from), i),
    ensures
        rewritten_data(data, from, to) == data,
{
    lemma_replace_absent(hex_digits(data), hex_digits(from), hex_digits(to));
    lemma_digits_round_trip(data);
}

/// Rewriting call data made of `prefix` followed by the address `from` gives `prefix`
/// followed by `to`, provided no occurrence of the hex text of `from` starts inside
/// the hex text of `prefix`.
pub proof fn lemma_rewrite_address_suffix(prefix: Seq<u8>, from: Seq<u8>, to: Seq<u8>)
    requires
        from.len() == 20,
        forall|i: int|
            0 <= i < 2 * prefix.len() ==> !occurs_at_spec(
                hex_digits(prefix + from),
                hex_digits(from),
                i,
            ),
    ensures
        rewritten_data(prefix + from, from, to) == prefix + to,
{
    lemma_digits_concat(prefix, from);
    lemma_digits_concat(prefix, to);
    lemma_replace_after_prefix(hex_digits(prefix), hex_digits(from), hex_digits(to));
    lemma_digits_round_trip(prefix + to);
}

} // verus!
