//! Addresses: the chain of child positions that leads from the catalogue root to a node.

use vstd::prelude::*;
use vstd::string::StringExecFns;

verus! {


/// The character of decimal digit `d` (`d < 10`).
pub open spec fn digit_char(d: nat) -> char {
    if d == 0 {
        '0'
    } else if d == 1 {
        '1'
    } else if d == 2 {
        '2'
    } else if d == 3 {
        '3'
    } else if d == 4 {
        '4'
    } else if d == 5 {
        '5'
    } else if d == 6 {
        '6'
    } else if d == 7 {
        '7'
    } else if d == 8 {
        '8'
    } else {
        '9'
    }
}

/// `n` written in decimal, most significant digit first, with no leading zeros.
pub open spec fn decimal(n: nat) -> Seq<char>
    decreases n,
{
    if n < 10 {
        seq![digit_char(n)]
    } else {
        decimal(n / 10).push(digit_char(n % 10))
    }
}

/// Canonical text of an address: `/`, then each position in decimal followed by `/`.
pub open spec fn encode(a: Seq<usize>) -> Seq<char>
    decreases a.len(),
{
    if a.len() == 0 {
        seq!['/']
    } else {
        encode(a.drop_last()) + decimal(a.last() as nat) + seq!['/']
    }
}

/// Whether `c` is one of the decimal digits `0` to `9`.
pub open spec fn is_digit(c: char) -> bool {
    '0' <= c && c <= '9'
}

/// The value of decimal digit `c`.
pub open spec fn digit_value(c: char) -> nat {
    (c as u32 - '0' as u32) as nat
}

/// The value of a run of decimal digits, most significant first (empty: zero).
pub open spec fn digits_value(f: Seq<char>) -> nat
    decreases f.len(),
{
    if f.len() == 0 {
        0
    } else {
        digits_value(f.drop_last()) * 10 + digit_value(f.last())
    }
}

/// A fragment without its leading `+` sign, if it has one.
pub open spec fn unsigned_part(f: Seq<char>) -> Seq<char> {
    if f.len() > 0 && f[0] == '+' {
        f.drop_first()
    } else {
        f
    }
}

/// The position a fragment denotes: an optional `+`, then at least one decimal digit,
/// with a value that fits in `usize`.
pub open spec fn fragment_value(f: Seq<char>) -> Option<usize> {
    let g = unsigned_part(f);
    if g.len() > 0 && (forall|i: int| 0 <= i < g.len() ==> is_digit(#[trigger] g[i]))
        && digits_value(g) <= usize::MAX {
        Some(digits_value(g) as usize)
    } else {
        None
    }
}

/// Scanning `s` left to right: the completed non-empty fragments, and the fragment
/// still open after the last `/`.
pub open spec fn split_state(s: Seq<char>) -> (Seq<Seq<char>>, Seq<char>)
    decreases s.len(),
{
    if s.len() == 0 {
        (Seq::empty(), Seq::empty())
    } else {
        let (done, open) = split_state(s.drop_last());
        if s.last() == '/' {
            (if open.len() > 0 { done.push(open) } else { done }, Seq::empty())
        } else {
            (done, open.push(s.last()))
        }
    }
}

/// The non-empty pieces of `s` between slashes, in order.
pub open spec fn fragments(s: Seq<char>) -> Seq<Seq<char>> {
    let (done, open) = split_state(s);
    if open.len() > 0 {
        done.push(open)
    } else {
        done
    }
}

/// The positions that the fragments denote, or `None` if one denotes none.
pub open spec fn fragment_values(fs: Seq<Seq<char>>) -> Option<Seq<usize>>
    decreases fs.len(),
{
    if fs.len() == 0 {
        Some(Seq::empty())
    } else {
        match (fragment_values(fs.drop_last()), fragment_value(fs.last())) {
            (Some(v), Some(x)) => Some(v.push(x)),
            _ => None,
        }
    }
}

/// The address that text `s` denotes, or `None` if it is malformed.
pub open spec fn decode(s: Seq<char>) -> Option<Seq<usize>> {
    fragment_values(fragments(s))
}

/// A node's address: the child position taken at each level, root first.
/// The empty address names the root itself.
#[derive(Debug, Clone)]
pub struct Index(pub Vec<usize>);

/// Address text with a fragment that is not a decimal integer in the range of `usize`.
#[derive(Debug, Clone, Copy, PartialEq, Eq, Structural)]
pub struct ParseError;

impl View for Index {
    type V = Seq<usize>;

    open spec fn view(&self) -> Seq<usize> {
        self.0@
    }
}

impl PartialEq for Index {
    fn eq(&self, other: &Index) -> (r: bool) {
        if self.0.len() != other.0.len() {
            return false;
        }
        let mut i: usize = 0;
        while i < self.0.len()
            invariant
                self@.len() == other@.len(),
                i <= self@.len(),
                self@.take(i as int) == other@.take(i as int),
            decreases self@.len() - i,
        {
            if self.0[i] != other.0[i] {
                return false;
            }
            assert(self@.take(i + 1) == self@.take(i as int).push(self@[i as int]));
            assert(other@.take(i + 1) == other@.take(i as int).push(other@[i as int]));
            i += 1;
        }
        assert(self@ == self@.take(i as int));
        assert(other@ == other@.take(i as int));
        true
    }
}

impl vstd::std_specs::cmp::PartialEqSpecImpl for Index {
    open spec fn obeys_eq_spec() -> bool {
        true
    }

    open spec fn eq_spec(&self, other: &Index) -> bool {
        self@ == other@
    }
}

impl Eq for Index {}

impl std::str::FromStr for Index {
    type Err = ParseError;

    fn from_str(s: &str) -> Result<Index, ParseError> {
        Index::from_text(s)
    }
}

impl Index {
    /// The address with the given positions.
    pub fn new(subindexes: Vec<usize>) -> (r: Index)
        ensures
            r@ == subindexes@,
    {
        Index(subindexes)
    }

    /// The address of this node's child at position `value`.
    pub fn join(&self, value: usize) -> (r: Index)
        ensures
            r@ == self@.push(value),
    {
        let mut v = self.0.clone();
        v.push(value);
        Index(v)
    }

    /// The address of this node's parent, or `None` at the root.
    pub fn parent(&self) -> (r: Option<Index>)
        ensures
            self@.len() == 0 ==> r is None,
            self@.len() > 0 ==> (r matches Some(p) && p@ == self@.drop_last()),
    {
        let mut v = self.0.clone();
        match v.pop() {
            Some(_) => Some(Index(v)),
            None => None,
        }
    }
    /// Parses address text: the non-empty pieces between slashes, each a decimal
    /// integer (optionally signed `+`) that fits in `usize`. Leading, trailing and
    /// repeated slashes are ignored.
    pub fn from_text(s: &str) -> (r: Result<Index, ParseError>)
        ensures
            decode(s@) is None ==> r is Err,
            decode(s@) matches Some(v) ==> (r matches Ok(a) && a@ == v),
    {
        let mut segs: Vec<usize> = Vec::new();
        let mut ok = true;
        let mut open_empty = true;
        let mut has_digits = false;
        let mut val_ok = true;
        let mut val: usize = 0;
        let ghost mut idx: int = 0;
        for c in it: s.chars()
            invariant
                idx == it.index(),
                it.seq() == s@,
                0 <= idx <= s@.len(),
                ({
                    let (done, open) = split_state(s@.take(idx));
                    let g = unsigned_part(open);
                    &&& ok ==> fragment_values(done) == Some(segs@)
                    &&& !ok ==> fragment_values(done) is None
                    &&& open_empty <==> open.len() == 0
                    &&& has_digits <==> g.len() > 0
                    &&& val_ok <==> ((forall|i: int| 0 <= i < g.len() ==> is_digit(#[trigger] g[i]))
                        && digits_value(g) <= usize::MAX)
                    &&& val_ok ==> val == digits_value(g)
                }),
        {
            let ghost prev = split_state(s@.take(idx));
            proof {
                assert(s@.take(idx + 1).drop_last() == s@.take(idx));
                assert(s@.take(idx + 1).last() == c);
            }
            if c == '/' {
                proof {
                    assert(prev.0.push(prev.1).drop_last() == prev.0);
                }
                if !open_empty {
                    if ok && val_ok && has_digits {
                        segs.push(val);
                    } else {
                        ok = false;
                    }
                }
                open_empty = true;
                has_digits = false;
                val_ok = true;
                val = 0;
                proof {
                    let g0: Seq<char> = unsigned_part(Seq::<char>::empty());
                    assert(g0 == Seq::<char>::empty());
                }
            } else {
                let ghost open = prev.1;
                let ghost g = unsigned_part(open);
                if open_empty && c == '+' {
                    proof {
                        assert(unsigned_part(open.push(c)) == Seq::<char>::empty());
                    }
                } else {
                    proof {
                        let g2 = unsigned_part(open.push(c));
                        if open.len() == 0 {
                            assert(g2 == seq![c]);
                            assert(g == Seq::<char>::empty());
                            assert(g2 == g.push(c));
                        } else if open[0] == '+' {
                            assert(open.push(c).drop_first() == open.drop_first().push(c));
                            assert(g2 == g.push(c));
                        } else {
                            assert(g2 == g.push(c));
                        }
                        assert(g.push(c).drop_last() == g);
                        assert(digits_value(g.push(c)) == digits_value(g) * 10 + digit_value(c));
                        if !val_ok {
                            if !(forall|i: int| 0 <= i < g.len() ==> is_digit(#[trigger] g[i])) {
                                let i = choose|i: int| 0 <= i < g.len() && !is_digit(#[trigger] g[i]);
                                assert(g.push(c)[i] == g[i]);
                            }
                        }
                    }
                    let is_dig = '0' <= c && c <= '9';
                    if val_ok && is_dig {
                        let d = (c as u32 - '0' as u32) as usize;
                        match val.checked_mul(10) {
                            Some(m) => match m.checked_add(d) {
                                Some(v) => {
                                    val = v;
                                },
                                None => {
                                    val_ok = false;
                                },
                            },
                            None => {
                                val_ok = false;
                            },
                        }
                    } else {
                        val_ok = false;
                    }
                    proof {
                        let g2 = g.push(c);
                        if val_ok {
                            assert forall|i: int| 0 <= i < g2.len() implies is_digit(#[trigger] g2[i]) by {
                                if i < g.len() {
                                    assert(g2[i] == g[i]);
                                }
                            }
                        }
                    }
                    has_digits = true;
                }
                open_empty = false;
            }
            proof {
                idx = idx + 1;
            }
        }
        proof {
            assert(s@.take(idx) == s@);
            let (done, open) = split_state(s@);
            assert(done.push(open).drop_last() == done);
        }
        if !open_empty {
            if ok && val_ok && has_digits {
                segs.push(val);
            } else {
                ok = false;
            }
        }
        if ok {
            Ok(Index(segs))
        } else {
            Err(ParseError)
        }
    }

    /// The canonical text of this address, e.g. `/1/3/2/`; the root is `/`.
    pub fn to_text(&self) -> (r: String)
        ensures
            r@ == encode(self@),
    {
        let mut out = String::new();
        out.append("/");
        proof {
            reveal_strlit("/");
        }
        let mut i: usize = 0;
        while i < self.0.len()
            invariant
                i <= self@.len(),
                out@ == encode(self@.take(i as int)),
            decreases self@.len() - i,
        {
            push_decimal(&mut out, self.0[i]);
            out.append("/");
            proof {
                reveal_strlit("/");
                let t = self@.take(i + 1);
                assert(t.drop_last() == self@.take(i as int));
            }
            i += 1;
        }
        assert(self@.take(i as int) == self@);
        out
    }
}

/// The one-character text of decimal digit `d`.
fn digit_text(d: usize) -> (r: &'static str)
    requires
        d < 10,
    ensures
        r@ == seq![digit_char(d as nat)],
{
    proof {
        reveal_strlit("0");
        reveal_strlit("1");
        reveal_strlit("2");
        reveal_strlit("3");
        reveal_strlit("4");
        reveal_strlit("5");
        reveal_strlit("6");
        reveal_strlit("7");
        reveal_strlit("8");
        reveal_strlit("9");
    }
    match d {
        0 => "0",
        1 => "1",
        2 => "2",
        3 => "3",
        4 => "4",
        5 => "5",
        6 => "6",
        7 => "7",
        8 => "8",
        _ => "9",
    }
}

/// Appends `n` in decimal to `out`.
fn push_decimal(out: &mut String, n: usize)
    ensures
        final(out)@ == old(out)@ + decimal(n as nat),
    decreases n,
{
    if n >= 10 {
        push_decimal(out, n / 10);
    }
    out.append(digit_text(n % 10));
    if n < 10 {
        assert(old(out)@ + decimal(n as nat) == old(out)@ + seq![digit_char(n as nat)]);
    } else {
        assert(decimal(n as nat) == decimal((n / 10) as nat).push(digit_char((n % 10) as nat)));
    }
}

} // verus!

verus! {

/// Each digit character is a digit, of the value it stands for.
proof fn lemma_digit_char(d: nat)
    requires
        d < 10,
    ensures
        is_digit(digit_char(d)),
        digit_value(digit_char(d)) == d,
{
    assert('0' as u32 == 48u32);
    assert('9' as u32 == 57u32);
}

/// The decimal text of `n` is a non-empty run of digits whose value is `n`.
proof fn lemma_decimal(n: nat)
    ensures
        decimal(n).len() > 0,
        forall|i: int| 0 <= i < decimal(n).len() ==> is_digit(#[trigger] decimal(n)[i]),
        digits_value(decimal(n)) == n,
    decreases n,
{
    lemma_digit_char(n % 10);
    if n < 10 {
        assert(decimal(n).drop_last() == Seq::<char>::empty());
        assert(digits_value(Seq::<char>::empty()) == 0);
    } else {
        lemma_decimal(n / 10);
        let p = decimal(n / 10);
        assert(decimal(n).drop_last() == p);
        assert forall|i: int| 0 <= i < decimal(n).len() implies is_digit(#[trigger] decimal(n)[i]) by {
            if i < p.len() {
                assert(decimal(n)[i] == p[i]);
            }
        }
        assert((n / 10) * 10 + n % 10 == n);
    }
}

/// Appending characters other than `/` only extends the open fragment.
proof fn lemma_split_plain_suffix(t: Seq<char>, w: Seq<char>)
    requires
        forall|i: int| 0 <= i < w.len() ==> #[trigger] w[i] != '/',
    ensures
        split_state(t + w) == (split_state(t).0, split_state(t).1 + w),
    decreases w.len(),
{
    if w.len() == 0 {
        assert(t + w == t);
        assert(split_state(t).1 + w == split_state(t).1);
    } else {
        let w0 = w.drop_last();
        assert forall|i: int| 0 <= i < w0.len() implies #[trigger] w0[i] != '/' by {
            assert(w0[i] == w[i]);
        }
        lemma_split_plain_suffix(t, w0);
        assert((t + w).drop_last() == t + w0);
        assert((t + w).last() == w.last());
        assert((split_state(t).1 + w0).push(w.last()) == split_state(t).1 + w);
    }
}

/// Scanning the canonical text of `a` closes every fragment, and the fragments
/// denote exactly the positions of `a`.
proof fn lemma_split_encode(a: Seq<usize>)
    ensures
        split_state(encode(a)).1 == Seq::<char>::empty(),
        fragment_values(split_state(encode(a)).0) == Some(a),
    decreases a.len(),
{
    if a.len() == 0 {
        let e = encode(a);
        assert(e.drop_last() == Seq::<char>::empty());
        assert(a == Seq::<usize>::empty());
        assert(e == seq!['/']);
        lemma_split_only_slashes(e);
    } else {
        let a0 = a.drop_last();
        let x = a.last();
        lemma_split_encode(a0);
        lemma_decimal(x as nat);
        let e0 = encode(a0);
        let d = decimal(x as nat);
        assert forall|i: int| 0 <= i < d.len() implies #[trigger] d[i] != '/' by {
            assert(is_digit(d[i]));
        }
        lemma_split_plain_suffix(e0, d);
        assert(split_state(e0).1 + d == d);
        let e = encode(a);
        assert(e.drop_last() == e0 + d);
        let done0 = split_state(e0).0;
        assert(done0.push(d).drop_last() == done0);
        assert(is_digit(d[0]));
        assert(unsigned_part(d) == d);
        assert(fragment_value(d) == Some(x));
        assert(e.last() == '/');
        assert(split_state(e) == (done0.push(d), Seq::<char>::empty()));
        assert(done0.push(d).last() == d);
        assert(fragment_values(done0.push(d)) == Some(a0.push(x)));
        assert(a0.push(x) == a);
    }
}

/// Decoding the canonical text of an address gives back that address.
pub proof fn lemma_round_trip(a: Seq<usize>)
    ensures
        decode(encode(a)) == Some(a),
{
    lemma_split_encode(a);
}

/// Text made only of slashes, the empty text included, decodes to the root address.
pub proof fn lemma_slashes_decode_to_root(s: Seq<char>)
    requires
        forall|i: int| 0 <= i < s.len() ==> s[i] == '/',
    ensures
        decode(s) == Some(Seq::<usize>::empty()),
    decreases s.len(),
{
    if s.len() > 0 {
        let s0 = s.drop_last();
        assert forall|i: int| 0 <= i < s0.len() implies s0[i] == '/' by {
            assert(s0[i] == s[i]);
        }
        lemma_slashes_decode_to_root(s0);
    }
    lemma_split_only_slashes(s);
}

/// Scanning slashes alone yields no fragment.
proof fn lemma_split_only_slashes(s: Seq<char>)
    requires
        forall|i: int| 0 <= i < s.len() ==> s[i] == '/',
    ensures
        split_state(s) == (Seq::<Seq<char>>::empty(), Seq::<char>::empty()),
    decreases s.len(),
{
    if s.len() > 0 {
        let s0 = s.drop_last();
        assert forall|i: int| 0 <= i < s0.len() implies s0[i] == '/' by {
            assert(s0[i] == s[i]);
        }
        lemma_split_only_slashes(s0);
    }
}

} // verus!
