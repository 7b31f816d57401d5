//! Content tools: the fingerprint used as a dedup key, literal substring
//! search and the highlight markup shown in search results.

use vstd::prelude::*;

verus! {

/// The lowercase hexadecimal MD5 digest of the UTF-8 encoding of `s`.
pub uninterp spec fn md5_hex_of(s: Seq<char>) -> Seq<char>;

/// Relies on `md5::compute` and the `LowerHex` formatting of its `Digest`:
/// the digest depends on the bytes alone and prints as 16 two-digit bytes.
#[verifier::external_body]
fn md5_hex(s: &str) -> (r: String)
    ensures
        r@ == md5_hex_of(s@),
        r@.len() == 32,
{
    format!("{:x}", md5::compute(s.as_bytes()))
}

/// Relies on `str::chars`, collected into a `Vec`: the characters in order.
#[verifier::external_body]
fn chars_of(s: &str) -> (r: Vec<char>)
    ensures
        r@ == s@,
{
    s.chars().collect()
}

/// Relies on collecting characters into a `String`: the same characters.
#[verifier::external_body]
fn string_of(v: &Vec<char>) -> (r: String)
    ensures
        r@ == v@,
{
    v.iter().collect()
}

/// `q` stands in `t` starting at position `i`.
pub open spec fn occurs_at(t: Seq<char>, q: Seq<char>, i: int) -> bool {
    0 <= i && i + q.len() <= t.len() && t.subrange(i, i + q.len()) == q
}

/// `q` is a literal substring of `t` (the empty text is one of every text).
pub open spec fn contains(t: Seq<char>, q: Seq<char>) -> bool {
    exists|i: int| occurs_at(t, q, i)
}

/// The marker written before each highlighted occurrence.
pub open spec fn mark_open() -> Seq<char> {
    seq!['<', 'm', 'a', 'r', 'k', '>']
}

/// The marker written after each highlighted occurrence.
pub open spec fn mark_close() -> Seq<char> {
    seq!['<', '/', 'm', 'a', 'r', 'k', '>']
}

/// `t` with every occurrence of `q` wrapped in markers, occurrences taken
/// from left to right without overlap. An empty `q` marks nothing.
pub open spec fn highlighted(q: Seq<char>, t: Seq<char>) -> Seq<char>
    decreases t.len(),
{
    if q.len() == 0 || t.len() < q.len() {
        t
    } else if t.subrange(0, q.len() as int) == q {
        mark_open() + q + mark_close() + highlighted(q, t.subrange(q.len() as int, t.len() as int))
    } else {
        seq![t[0]] + highlighted(q, t.subrange(1, t.len() as int))
    }
}

/// The fingerprint of a content: its MD5 digest in lowercase hexadecimal.
pub fn fingerprint(content: &str) -> (r: String)
    ensures
        r@ == md5_hex_of(content@),
{
    md5_hex(content)
}

fn occurs_at_exec(t: &Vec<char>, q: &Vec<char>, i: usize) -> (r: bool)
    ensures
        r == occurs_at(t@, q@, i as int),
{
    if i > t.len() || q.len() > t.len() - i {
        return false;
    }
    let mut j: usize = 0;
    while j < q.len()
        invariant
            j <= q.len(),
            i + q.len() <= t.len(),
            forall|k: int| 0 <= k < j ==> t@[i + k] == q@[k],
        decreases q.len() - j,
    {
        if t[i + j] != q[j] {
            proof {
                assert(t@.subrange(i as int, i + q.len())[j as int] != q@[j as int]);
            }
            return false;
        }
        j = j + 1;
    }
    proof {
        assert(t@.subrange(i as int, i + q.len()) =~= q@);
    }
    true
}

fn push_all(out: &mut Vec<char>, v: &Vec<char>)
    ensures
        final(out)@ == old(out)@ + v@,
{
    let mut j: usize = 0;
    while j < v.len()
        invariant
            j <= v.len(),
            out@ == old(out)@ + v@.take(j as int),
        decreases v.len() - j,
    {
        out.push(v[j]);
        j = j + 1;
        proof {
            assert(v@.take(j as int) =~= v@.take(j - 1).push(v@[j - 1]));
        }
    }
    proof {
        assert(v@.take(j as int) =~= v@);
    }
}

/// Whether `query` is a literal substring of `content`.
pub fn contains_text(content: &str, query: &str) -> (r: bool)
    ensures
        r == contains(content@, query@),
{
    let t = chars_of(content);
    let q = chars_of(query);
    if q.len() > t.len() {
        return false;
    }
    let last = t.len() - q.len();
    let mut i: usize = 0;
    loop
        invariant
            t@ == content@,
            q@ == query@,
            last == t@.len() - q@.len(),
            i <= last,
            forall|k: int| 0 <= k < i ==> !occurs_at(t@, q@, k),
        decreases last - i,
    {
        if occurs_at_exec(&t, &q, i) {
            proof {
                assert(occurs_at(t@, q@, i as int));
            }
            return true;
        }
        if i == last {
            proof {
                assert forall|k: int| !occurs_at(t@, q@, k) by {
                    if 0 <= k && k <= last {
                        if k < i {
                        }
                    }
                }
            }
            return false;
        }
        i = i + 1;
    }
}

/// `content` with every occurrence of `query` wrapped in `<mark>` and
/// `</mark>`, left to right without overlap.
pub fn highlight(query: &str, content: &str) -> (r: String)
    ensures
        r@ == highlighted(query@, content@),
{
    let t = chars_of(content);
    let q = chars_of(query);
    if q.len() == 0 {
        return string_of(&t);
    }
    let open: Vec<char> = vec!['<', 'm', 'a', 'r', 'k', '>'];
    let close: Vec<char> = vec!['<', '/', 'm', 'a', 'r', 'k', '>'];
    proof {
        assert(open@ =~= mark_open());
        assert(close@ =~= mark_close());
    }
    let mut out: Vec<char> = Vec::new();
    let mut i: usize = 0;
    proof {
        assert(t@.subrange(0, t@.len() as int) =~= t@);
        assert(out@ + highlighted(q@, t@) =~= highlighted(q@, t@));
    }
    while i < t.len()
        invariant
            i <= t.len(),
            t@ == content@,
            q@ == query@,
            q@.len() > 0,
            open@ == mark_open(),
            close@ == mark_close(),
            out@ + highlighted(q@, t@.subrange(i as int, t@.len() as int)) == highlighted(q@, t@),
        decreases t.len() - i,
    {
        let ghost s = t@.subrange(i as int, t@.len() as int);
        let ghost before = out@;
        if occurs_at_exec(&t, &q, i) {
            proof {
                assert(s.subrange(0, q@.len() as int) =~= t@.subrange(i as int, i + q@.len()));
                assert(s.subrange(q@.len() as int, s.len() as int) =~= t@.subrange(
                    i + q@.len(),
                    t@.len() as int,
                ));
            }
            push_all(&mut out, &open);
            push_all(&mut out, &q);
            push_all(&mut out, &close);
            i = i + q.len();
            proof {
                assert(out@ == before + mark_open() + q@ + mark_close());
                assert((before + mark_open() + q@ + mark_close()) + highlighted(q@, t@.subrange(i as int, t@.len() as int))
                    =~= before + (mark_open() + q@ + mark_close() + highlighted(q@, t@.subrange(i as int, t@.len() as int))));
            }
        } else {
            out.push(t[i]);
            i = i + 1;
            let ghost rest = t@.subrange(i as int, t@.len() as int);
            proof {
                assert(s.subrange(1, s.len() as int) =~= rest);
                if s.len() < q@.len() {
                    assert(rest.len() < q@.len());
                    assert(s =~= seq![s[0]] + rest);
                } else {
                    assert(s.subrange(0, q@.len() as int) =~= t@.subrange(i - 1, i - 1 + q@.len()));
                }
                assert(before.push(t@[i - 1]) + highlighted(q@, rest) =~= before + (seq![s[0]] + highlighted(q@, rest)));
            }
        }
    }
    proof {
        assert(t@.subrange(i as int, t@.len() as int) =~= Seq::<char>::empty());
        assert(out@ + Seq::<char>::empty() =~= out@);
    }
    string_of(&out)
}

} // verus!
