//! Character-level helpers on strings.

use vstd::prelude::*;

verus! {

/// The characters of `s`, in order.
pub fn chars_of(s: &str) -> (v: Vec<char>)
    ensures
        v@ == s@,
{
    let mut v: Vec<char> = Vec::new();
    for c in it: s.chars()
        invariant
            v@ == it.seq().take(it.index() as int),
            it.seq() == s@,
    {
        v.push(c);
    }
    v
}

/// Whether two strings hold the same characters.
pub fn str_eq(a: &str, b: &str) -> (r: bool)
    ensures
        r == (a@ == b@),
{
    let x = chars_of(a);
    let y = chars_of(b);
    if x.len() != y.len() {
        return false;
    }
    let mut i: usize = 0;
    while i < x.len()
        invariant
            x@ == a@,
            y@ == b@,
            x@.len() == y@.len(),
            i <= x@.len(),
            forall|k: int| 0 <= k < i ==> x@[k] == y@[k],
        decreases x@.len() - i,
    {
        if x[i] != y[i] {
            return false;
        }
        i = i + 1;
    }
    assert(x@ =~= y@);
    true
}

/// Whether `name` is one of `list`.
pub fn name_in(list: &[&'static str], name: &str) -> (b: bool)
    ensures
        b == exists|i: int| 0 <= i < list@.len() && #[trigger] list@[i]@ == name@,
{
    let mut i: usize = 0;
    while i < list.len()
        invariant
            i <= list@.len(),
            forall|k: int| 0 <= k < i ==> #[trigger] list@[k]@ != name@,
        decreases list@.len() - i,
    {
        if str_eq(list[i], name) {
            return true;
        }
        i = i + 1;
    }
    false
}

/// Appends one character to a string (`String::push`).
#[verifier::external_body]
pub(crate) fn push_char(s: &mut String, c: char)
    ensures
        final(s)@ == old(s)@.push(c),
{
    s.push(c);
}

/// A string holding `cs`.
pub fn string_of(cs: &Vec<char>) -> (s: String)
    ensures
        s@ == cs@,
{
    let mut s = String::new();
    let mut i: usize = 0;
    while i < cs.len()
        invariant
            i <= cs@.len(),
            s@ == cs@.take(i as int),
        decreases cs@.len() - i,
    {
        push_char(&mut s, cs[i]);
        proof {
            assert(cs@.take(i + 1) =~= cs@.take(i as int).push(cs@[i as int]));
        }
        i = i + 1;
    }
    proof {
        assert(cs@.take(i as int) =~= cs@);
    }
    s
}

/// The decimal digit character of `d` (0 to 9).
pub open spec fn digit_char(d: int) -> char {
    if d == 0 { '0' }
    else if d == 1 { '1' }
    else if d == 2 { '2' }
    else if d == 3 { '3' }
    else if d == 4 { '4' }
    else if d == 5 { '5' }
    else if d == 6 { '6' }
    else if d == 7 { '7' }
    else if d == 8 { '8' }
    else { '9' }
}

/// Decimal notation of `n`, without leading zeros.
pub open spec fn decimal(n: nat) -> Seq<char>
    decreases n,
{
    if n < 10 {
        seq![digit_char(n as int)]
    } else {
        decimal(n / 10).push(digit_char((n % 10) as int))
    }
}

fn digit_exec(d: u64) -> (c: char)
    requires
        d < 10,
    ensures
        c == digit_char(d as int),
{
    if d == 0 { '0' }
    else if d == 1 { '1' }
    else if d == 2 { '2' }
    else if d == 3 { '3' }
    else if d == 4 { '4' }
    else if d == 5 { '5' }
    else if d == 6 { '6' }
    else if d == 7 { '7' }
    else if d == 8 { '8' }
    else { '9' }
}

/// Decimal notation of `n`, as `{}` formats it.
pub fn decimal_string(n: u64) -> (s: String)
    ensures
        s@ == decimal(n as nat),
{
    let mut rev: Vec<char> = Vec::new();
    let mut m: u64 = n;
    let ghost mut suffix: Seq<char> = seq![];
    loop
        invariant_except_break
            decimal(n as nat) == decimal(m as nat) + suffix,
        invariant
            rev@ == suffix.reverse(),
        ensures
            decimal(n as nat) == suffix,
        decreases m,
    {
        let d = m % 10;
        let c = digit_exec(d);
        rev.push(c);
        proof {
            let old_suffix = suffix;
            suffix = seq![c] + suffix;
            if m >= 10 {
                assert(decimal(m as nat) == decimal((m / 10) as nat).push(c));
                assert(decimal((m / 10) as nat) + suffix =~= decimal((m / 10) as nat).push(c) + old_suffix);
            }
            assert(suffix.reverse() =~= old_suffix.reverse().push(c));
        }
        if m < 10 {
            proof {
                assert(decimal(m as nat) =~= seq![c]);
                assert(decimal(n as nat) =~= suffix);
            }
            break;
        }
        m = m / 10;
    }
    let len = rev.len();
    let mut out: Vec<char> = Vec::new();
    let mut k: usize = 0;
    while k < len
        invariant
            len == rev@.len(),
            k <= len,
            out@.len() == k,
            forall|i: int| 0 <= i < k ==> #[trigger] out@[i] == rev@[len - 1 - i],
        decreases len - k,
    {
        out.push(rev[len - 1 - k]);
        k = k + 1;
    }
    proof {
        assert(out@ =~= rev@.reverse());
        assert(rev@.reverse() =~= suffix.reverse().reverse());
        assert(suffix.reverse().reverse() =~= suffix);
    }
    string_of(&out)
}

/// Unicode `White_Space`, the characters that `char::is_whitespace` accepts.
pub open spec fn is_ws(c: char) -> bool {
    let v = c as u32;
    ||| 9 <= v <= 13
    ||| v == 32
    ||| v == 0x85
    ||| v == 0xA0
    ||| v == 0x1680
    ||| 0x2000 <= v <= 0x200A
    ||| v == 0x2028
    ||| v == 0x2029
    ||| v == 0x202F
    ||| v == 0x205F
    ||| v == 0x3000
}

/// Whether `c` is white space.
pub fn is_whitespace(c: char) -> (b: bool)
    ensures
        b == is_ws(c),
{
    let v = c as u32;
    (9 <= v && v <= 13) || v == 32 || v == 0x85 || v == 0xA0 || v == 0x1680 || (0x2000 <= v && v
        <= 0x200A) || v == 0x2028 || v == 0x2029 || v == 0x202F || v == 0x205F || v == 0x3000
}

/// Index of the first white-space character of `t`, or its length.
pub open spec fn first_ws(t: Seq<char>) -> int
    decreases t.len(),
{
    if t.len() == 0 {
        0
    } else if is_ws(t[0]) {
        0
    } else {
        1 + first_ws(t.drop_first())
    }
}

/// The white-space separated words of `t`, as `str::split_whitespace`
/// yields them.
pub open spec fn words(t: Seq<char>) -> Seq<Seq<char>>
    decreases t.len(),
{
    if t.len() == 0 {
        seq![]
    } else if is_ws(t[0]) {
        words(t.drop_first())
    } else {
        let k = first_ws(t);
        proof {
            lemma_first_ws_bounds(t);
        }
        seq![t.take(k)] + words(t.skip(k))
    }
}

/// Index of the first `sep` in `t`, or its length.
pub open spec fn first_of(t: Seq<char>, sep: char) -> int
    decreases t.len(),
{
    if t.len() == 0 {
        0
    } else if t[0] == sep {
        0
    } else {
        1 + first_of(t.drop_first(), sep)
    }
}

/// The pieces of `t` between occurrences of `sep`, empty pieces included.
pub open spec fn pieces(t: Seq<char>, sep: char) -> Seq<Seq<char>>
    decreases t.len(),
{
    let k = first_of(t, sep);
    if k >= t.len() {
        seq![t]
    } else {
        proof {
            lemma_first_of_bounds(t, sep);
        }
        seq![t.take(k)] + pieces(t.skip(k + 1), sep)
    }
}

pub proof fn lemma_first_ws_bounds(t: Seq<char>)
    ensures
        0 <= first_ws(t) <= t.len(),
        forall|i: int| 0 <= i < first_ws(t) ==> !is_ws(#[trigger] t[i]),
        first_ws(t) < t.len() ==> is_ws(t[first_ws(t)]),
    decreases t.len(),
{
    if t.len() > 0 && !is_ws(t[0]) {
        lemma_first_ws_bounds(t.drop_first());
        assert forall|i: int| 0 <= i < first_ws(t) implies !is_ws(#[trigger] t[i]) by {
            if i > 0 {
                assert(t[i] == t.drop_first()[i - 1]);
            }
        }
    }
}

pub proof fn lemma_first_of_bounds(t: Seq<char>, sep: char)
    ensures
        0 <= first_of(t, sep) <= t.len(),
        forall|i: int| 0 <= i < first_of(t, sep) ==> #[trigger] t[i] != sep,
        first_of(t, sep) < t.len() ==> t[first_of(t, sep)] == sep,
    decreases t.len(),
{
    if t.len() > 0 && t[0] != sep {
        lemma_first_of_bounds(t.drop_first(), sep);
        assert forall|i: int| 0 <= i < first_of(t, sep) implies #[trigger] t[i] != sep by {
            if i > 0 {
                assert(t[i] == t.drop_first()[i - 1]);
            }
        }
    }
}

/// A word followed by white space splits off as the first word.
proof fn lemma_first_ws_concat(w: Seq<char>, r: Seq<char>)
    requires
        forall|i: int| 0 <= i < w.len() ==> !is_ws(#[trigger] w[i]),
        r.len() > 0,
        is_ws(r[0]),
    ensures
        first_ws(w + r) == w.len(),
    decreases w.len(),
{
    if w.len() > 0 {
        lemma_first_ws_concat(w.drop_first(), r);
        assert((w + r).drop_first() =~= w.drop_first() + r);
    } else {
        assert(w + r =~= r);
    }
}

proof fn lemma_words_split(w: Seq<char>, r: Seq<char>)
    requires
        w.len() > 0,
        forall|i: int| 0 <= i < w.len() ==> !is_ws(#[trigger] w[i]),
        r.len() > 0,
        is_ws(r[0]),
    ensures
        words(w + r) == seq![w] + words(r.drop_first()),
{
    lemma_first_ws_concat(w, r);
    let t = w + r;
    assert(t[0] == w[0]);
    assert(t.take(w.len() as int) =~= w);
    assert(t.skip(w.len() as int) =~= r);
    assert(words(r) == words(r.drop_first()));
}

proof fn lemma_words_word(w: Seq<char>)
    requires
        forall|i: int| 0 <= i < w.len() ==> !is_ws(#[trigger] w[i]),
    ensures
        words(w) == (if w.len() == 0 { seq![] } else { seq![w] }),
    decreases w.len(),
{
    if w.len() > 0 {
        lemma_first_ws_bounds(w);
        if first_ws(w) < w.len() {
            assert(!is_ws(w[first_ws(w)]));
        }
        assert(w.take(w.len() as int) =~= w);
        assert(w.skip(w.len() as int) =~= Seq::<char>::empty());
        assert(!is_ws(w[0]));
        assert(first_ws(w) == w.len());
        assert(words(w.skip(w.len() as int)) =~= Seq::<Seq<char>>::empty());
        assert(words(w) =~= seq![w]);
    }
}

proof fn lemma_first_of_concat(w: Seq<char>, r: Seq<char>, sep: char)
    requires
        forall|i: int| 0 <= i < w.len() ==> #[trigger] w[i] != sep,
        r.len() > 0,
        r[0] == sep,
    ensures
        first_of(w + r, sep) == w.len(),
    decreases w.len(),
{
    if w.len() > 0 {
        lemma_first_of_concat(w.drop_first(), r, sep);
        assert((w + r).drop_first() =~= w.drop_first() + r);
    } else {
        assert(w + r =~= r);
    }
}

proof fn lemma_pieces_split(w: Seq<char>, r: Seq<char>, sep: char)
    requires
        forall|i: int| 0 <= i < w.len() ==> #[trigger] w[i] != sep,
        r.len() > 0,
        r[0] == sep,
    ensures
        pieces(w + r, sep) == seq![w] + pieces(r.drop_first(), sep),
{
    lemma_first_of_concat(w, r, sep);
    let t = w + r;
    assert(t.take(w.len() as int) =~= w);
    assert(t.skip(w.len() as int + 1) =~= r.drop_first());
}

proof fn lemma_pieces_last(w: Seq<char>, sep: char)
    requires
        forall|i: int| 0 <= i < w.len() ==> #[trigger] w[i] != sep,
    ensures
        pieces(w, sep) == seq![w],
{
    lemma_first_of_bounds(w, sep);
    if first_of(w, sep) < w.len() {
        assert(w[first_of(w, sep)] == sep);
    }
}

pub proof fn lemma_pieces_bounds(t: Seq<char>, sep: char)
    ensures
        pieces(t, sep).len() <= t.len() + 1,
        forall|i: int| 0 <= i < pieces(t, sep).len() ==> #[trigger] pieces(t, sep)[i].len() <= t.len(),
    decreases t.len(),
{
    lemma_first_of_bounds(t, sep);
    let k = first_of(t, sep);
    if k < t.len() {
        lemma_pieces_bounds(t.skip(k + 1), sep);
        let r = pieces(t.skip(k + 1), sep);
        assert forall|i: int| 0 <= i < pieces(t, sep).len() implies #[trigger] pieces(t, sep)[i].len()
            <= t.len() by {
            if i > 0 {
                assert(pieces(t, sep)[i] == r[i - 1]);
            }
        }
    }
}

pub proof fn lemma_words_bounds(t: Seq<char>)
    ensures
        words(t).len() <= t.len(),
        forall|i: int| 0 <= i < words(t).len() ==> #[trigger] words(t)[i].len() <= t.len(),
    decreases t.len(),
{
    if t.len() > 0 {
        if is_ws(t[0]) {
            lemma_words_bounds(t.drop_first());
        } else {
            lemma_first_ws_bounds(t);
            let k = first_ws(t);
            lemma_words_bounds(t.skip(k));
            let r = words(t.skip(k));
            assert forall|i: int| 0 <= i < words(t).len() implies #[trigger] words(t)[i].len()
                <= t.len() by {
                if i > 0 {
                    assert(words(t)[i] == r[i - 1]);
                }
            }
        }
    }
}

/// The pieces of `t` between occurrences of `sep`, empty pieces included.
pub fn split_pieces(t: &Vec<char>, sep: char) -> (r: Vec<Vec<char>>)
    ensures
        r@.len() == pieces(t@, sep).len(),
        forall|i: int| 0 <= i < r@.len() ==> #[trigger] r@[i]@ == pieces(t@, sep)[i],
{
    let mut done: Vec<Vec<char>> = Vec::new();
    let mut cur: Vec<char> = Vec::new();
    let mut i: usize = 0;
    let ghost dv: Seq<Seq<char>> = seq![];
    proof {
        assert(cur@ + t@.skip(0) =~= t@);
        assert(dv + pieces(t@, sep) =~= pieces(t@, sep));
    }
    while i < t.len()
        invariant
            i <= t@.len(),
            forall|k: int| 0 <= k < cur@.len() ==> #[trigger] cur@[k] != sep,
            done@.len() == dv.len(),
            forall|k: int| 0 <= k < done@.len() ==> #[trigger] done@[k]@ == dv[k],
            dv + pieces(cur@ + t@.skip(i as int), sep) == pieces(t@, sep),
        decreases t@.len() - i,
    {
        let c = t[i];
        let ghost rest = t@.skip(i as int);
        assert(rest[0] == c);
        assert(rest.drop_first() =~= t@.skip(i + 1));
        if c == sep {
            proof {
                lemma_pieces_split(cur@, rest, sep);
                dv = dv.push(cur@);
            }
            done.push(cur);
            cur = Vec::new();
            proof {
                assert(cur@ + t@.skip(i + 1) =~= t@.skip(i + 1));
            }
        } else {
            let ghost old_cur = cur@;
            cur.push(c);
            proof {
                assert(cur@ + t@.skip(i + 1) =~= old_cur + rest);
            }
        }
        i = i + 1;
    }
    proof {
        assert(t@.skip(i as int) =~= Seq::<char>::empty());
        assert(cur@ + t@.skip(i as int) =~= cur@);
        lemma_pieces_last(cur@, sep);
        dv = dv.push(cur@);
    }
    done.push(cur);
    proof {
        assert(dv =~= pieces(t@, sep));
    }
    done
}

/// Number of white-space characters at the start of `s`.
pub open spec fn lead_ws(s: Seq<char>) -> int
    decreases s.len(),
{
    if s.len() == 0 {
        0
    } else if is_ws(s[0]) {
        1 + lead_ws(s.drop_first())
    } else {
        0
    }
}

/// Number of white-space characters at the end of `s`.
pub open spec fn trail_ws(s: Seq<char>) -> int
    decreases s.len(),
{
    if s.len() == 0 {
        0
    } else if is_ws(s.last()) {
        1 + trail_ws(s.drop_last())
    } else {
        0
    }
}

/// `s` without leading and trailing white space (`str::trim`).
pub open spec fn trim(s: Seq<char>) -> Seq<char> {
    if lead_ws(s) >= s.len() {
        seq![]
    } else {
        s.subrange(lead_ws(s), s.len() - trail_ws(s))
    }
}

proof fn lemma_lead_ws(s: Seq<char>, a: int)
    requires
        0 <= a <= s.len(),
        forall|i: int| 0 <= i < a ==> is_ws(#[trigger] s[i]),
        a < s.len() ==> !is_ws(s[a]),
    ensures
        lead_ws(s) == a,
    decreases a,
{
    if a > 0 {
        assert(is_ws(s[0]));
        assert forall|i: int| 0 <= i < a - 1 implies is_ws(#[trigger] s.drop_first()[i]) by {
            assert(s.drop_first()[i] == s[i + 1]);
        }
        if a - 1 < s.len() - 1 {
            assert(s.drop_first()[a - 1] == s[a]);
        }
        lemma_lead_ws(s.drop_first(), a - 1);
    }
}

proof fn lemma_trail_ws(s: Seq<char>, b: int)
    requires
        0 <= b <= s.len(),
        forall|i: int| b <= i < s.len() ==> is_ws(#[trigger] s[i]),
        b > 0 ==> !is_ws(s[b - 1]),
    ensures
        trail_ws(s) == s.len() - b,
    decreases s.len() - b,
{
    if b < s.len() {
        assert(is_ws(s.last()));
        let t = s.drop_last();
        assert forall|i: int| b <= i < t.len() implies is_ws(#[trigger] t[i]) by {
            assert(t[i] == s[i]);
        }
        if b > 0 {
            assert(t[b - 1] == s[b - 1]);
        }
        lemma_trail_ws(t, b);
    }
}

/// `s` without leading and trailing white space.
pub fn trim_chars(s: &Vec<char>) -> (r: Vec<char>)
    ensures
        r@ == trim(s@),
{
    let n = s.len();
    let mut a: usize = 0;
    while a < n && is_whitespace(s[a])
        invariant
            n == s@.len(),
            a <= n,
            forall|i: int| 0 <= i < a ==> is_ws(#[trigger] s@[i]),
        decreases n - a,
    {
        a = a + 1;
    }
    proof {
        lemma_lead_ws(s@, a as int);
    }
    if a == n {
        let r: Vec<char> = Vec::new();
        assert(r@ =~= trim(s@));
        return r;
    }
    let mut b: usize = n;
    while b > a && is_whitespace(s[b - 1])
        invariant
            n == s@.len(),
            a < n,
            !is_ws(s@[a as int]),
            a <= b <= n,
            forall|i: int| b <= i < n ==> is_ws(#[trigger] s@[i]),
        decreases b,
    {
        b = b - 1;
    }
    proof {
        if b == a {
            assert(!is_ws(s@[a as int]));
            assert(false);
        }
        lemma_trail_ws(s@, b as int);
    }
    let mut r: Vec<char> = Vec::new();
    let mut k: usize = a;
    while k < b
        invariant
            a <= k <= b,
            b <= s@.len(),
            r@ == s@.subrange(a as int, k as int),
        decreases b - k,
    {
        r.push(s[k]);
        proof {
            assert(s@.subrange(a as int, k + 1) =~= s@.subrange(a as int, k as int).push(s@[k as int]));
        }
        k = k + 1;
    }
    r
}

/// The white-space separated words of `t`.
pub fn split_words(t: &Vec<char>) -> (r: Vec<Vec<char>>)
    ensures
        r@.len() == words(t@).len(),
        forall|i: int| 0 <= i < r@.len() ==> #[trigger] r@[i]@ == words(t@)[i],
{
    let mut done: Vec<Vec<char>> = Vec::new();
    let mut cur: Vec<char> = Vec::new();
    let mut i: usize = 0;
    let ghost dv: Seq<Seq<char>> = seq![];
    proof {
        assert(cur@ + t@.skip(0) =~= t@);
        assert(dv + words(t@) =~= words(t@));
    }
    while i < t.len()
        invariant
            i <= t@.len(),
            forall|k: int| 0 <= k < cur@.len() ==> !is_ws(#[trigger] cur@[k]),
            done@.len() == dv.len(),
            forall|k: int| 0 <= k < done@.len() ==> #[trigger] done@[k]@ == dv[k],
            dv + words(cur@ + t@.skip(i as int)) == words(t@),
        decreases t@.len() - i,
    {
        let c = t[i];
        let ghost rest = t@.skip(i as int);
        assert(rest[0] == c);
        assert(rest.drop_first() =~= t@.skip(i + 1));
        if is_whitespace(c) {
            if cur.len() > 0 {
                proof {
                    lemma_words_split(cur@, rest);
                    dv = dv.push(cur@);
                }
                done.push(cur);
                cur = Vec::new();
                proof {
                    assert(cur@ + t@.skip(i + 1) =~= t@.skip(i + 1));
                }
            } else {
                proof {
                    assert(cur@ + rest =~= rest);
                    assert(cur@ + t@.skip(i + 1) =~= t@.skip(i + 1));
                }
            }
        } else {
            let ghost old_cur = cur@;
            cur.push(c);
            proof {
                assert(cur@ + t@.skip(i + 1) =~= old_cur + rest);
            }
        }
        i = i + 1;
    }
    proof {
        assert(t@.skip(i as int) =~= Seq::<char>::empty());
        assert(cur@ + t@.skip(i as int) =~= cur@);
        lemma_words_word(cur@);
    }
    if cur.len() > 0 {
        proof {
            dv = dv.push(cur@);
        }
        done.push(cur);
    }
    proof {
        assert(dv =~= words(t@));
    }
    done
}

} // verus!

verus! {

/// A line break character of text typed by the user.
pub open spec fn is_line_break(c: char) -> bool {
    c == '\n' || c == '\r'
}

/// Removes line breaks from typed text and reports whether there was one
/// (the user pressed Enter).
pub fn normalize_text(text: &str) -> (r: (String, bool))
    ensures
        r.0@ == text@.filter(|c: char| !is_line_break(c)),
        r.1 == exists|i: int| 0 <= i < text@.len() && is_line_break(#[trigger] text@[i]),
{
    let cs = chars_of(text);
    let mut kept: Vec<char> = Vec::new();
    let mut enter = false;
    let mut i: usize = 0;
    while i < cs.len()
        invariant
            cs@ == text@,
            i <= cs@.len(),
            kept@ == cs@.take(i as int).filter(|c: char| !is_line_break(c)),
            enter == exists|k: int| 0 <= k < i && is_line_break(#[trigger] cs@[k]),
        decreases cs@.len() - i,
    {
        let c = cs[i];
        proof {
            let t = cs@.take(i + 1);
            assert(t.drop_last() =~= cs@.take(i as int));
            assert(t.last() == c);
            reveal(Seq::filter);
        }
        if c == '\n' || c == '\r' {
            enter = true;
        } else {
            kept.push(c);
        }
        i = i + 1;
    }
    assert(cs@.take(i as int) =~= cs@);
    (string_of(&kept), enter)
}

/// What lossy UTF-8 decoding makes of a byte string: valid sequences
/// become their characters, each invalid one a replacement character.
pub uninterp spec fn utf8_lossy(bytes: Seq<u8>) -> Seq<char>;

/// Every byte is ASCII.
pub open spec fn all_ascii(bytes: Seq<u8>) -> bool {
    forall|i: int| 0 <= i < bytes.len() ==> #[trigger] bytes[i] < 128
}

/// `String::from_utf8_lossy`, taken as an owned string. Of the result the
/// contract states that it is the lossy decoding of the bytes and that
/// ASCII bytes decode to the characters with the same codes; the decoding
/// of other bytes is left to the name `utf8_lossy`.
#[verifier::external_body]
fn decode_lossy(bytes: &[u8]) -> (s: String)
    ensures
        s@ == utf8_lossy(bytes@),
        all_ascii(bytes@) ==> s@ == bytes@.map_values(|b: u8| b as char),
{
    String::from_utf8_lossy(bytes).into_owned()
}

/// The text of a game file (the map, a configuration) from its bytes, with
/// invalid UTF-8 sequences replaced.
pub fn load_string(bytes: &[u8]) -> (s: String)
    ensures
        s@ == utf8_lossy(bytes@),
        all_ascii(bytes@) ==> s@ == bytes@.map_values(|b: u8| b as char),
{
    decode_lossy(bytes)
}

/// `needle` occurs in `hay` starting at index `i`.
pub open spec fn occurs_at(hay: Seq<char>, needle: Seq<char>, i: int) -> bool {
    0 <= i && i + needle.len() <= hay.len() && hay.subrange(i, i + needle.len()) == needle
}

/// `needle` occurs somewhere in `hay`.
pub open spec fn has_infix(hay: Seq<char>, needle: Seq<char>) -> bool {
    exists|i: int| occurs_at(hay, needle, i)
}

/// Whether `needle` occurs in `hay`.
pub fn contains_str(hay: &str, needle: &str) -> (b: bool)
    ensures
        b == has_infix(hay@, needle@),
{
    let h = chars_of(hay);
    let n = chars_of(needle);
    if n.len() > h.len() {
        proof {
            assert forall|i: int| !occurs_at(hay@, needle@, i) by {}
        }
        return false;
    }
    let mut i: usize = 0;
    while i <= h.len() - n.len()
        invariant
            h@ == hay@,
            n@ == needle@,
            n@.len() <= h@.len(),
            i <= h@.len() - n@.len() + 1,
            forall|k: int| 0 <= k < i ==> !#[trigger] occurs_at(hay@, needle@, k),
        decreases h@.len() - n@.len() + 1 - i,
    {
        assert(i + n@.len() <= h@.len());
        let hl = h.len();
        let mut j: usize = 0;
        let mut same = true;
        while j < n.len()
            invariant
                hl == h@.len(),
                h@ == hay@,
                n@ == needle@,
                i + n@.len() <= h@.len(),
                j <= n@.len(),
                same == forall|m: int| 0 <= m < j ==> h@[i + m] == n@[m],
            decreases n@.len() - j,
        {
            assert(i + j < hl);
            if h[i + j] != n[j] {
                same = false;
            }
            j = j + 1;
        }
        if same {
            assert(hay@.subrange(i as int, i + needle@.len()) =~= needle@);
            assert(occurs_at(hay@, needle@, i as int));
            return true;
        }
        proof {
            assert(!occurs_at(hay@, needle@, i as int)) by {
                if occurs_at(hay@, needle@, i as int) {
                    let m = choose|m: int| 0 <= m < j && h@[i + m] != n@[m];
                    assert(hay@.subrange(i as int, i + needle@.len())[m] == hay@[i + m]);
                }
            }
        }
        i = i + 1;
    }
    proof {
        assert forall|k: int| !occurs_at(hay@, needle@, k) by {
            if occurs_at(hay@, needle@, k) {
                assert(k < i);
            }
        }
    }
    false
}

/// Appends `t` to `s`.
pub fn append(s: &mut String, t: &str)
    ensures
        final(s)@ == old(s)@ + t@,
{
    let cs = chars_of(t);
    let mut i: usize = 0;
    while i < cs.len()
        invariant
            cs@ == t@,
            i <= cs@.len(),
            s@ == old(s)@ + cs@.take(i as int),
        decreases cs@.len() - i,
    {
        push_char(s, cs[i]);
        proof {
            assert(old(s)@ + cs@.take(i + 1) =~= (old(s)@ + cs@.take(i as int)).push(cs@[i as int]));
        }
        i = i + 1;
    }
    assert(cs@.take(i as int) =~= cs@);
}

} // verus!
