use vstd::prelude::*;

verus! {

/// The pieces of `s` between occurrences of `sep`, as `str::split` yields them:
/// there is always at least one piece, and an empty piece stands wherever two
/// separators meet or a separator stands at either end.
pub open spec fn fields(s: Seq<char>, sep: char) -> Seq<Seq<char>>
    decreases s.len(),
{
    if s.len() == 0 {
        seq![Seq::empty()]
    } else {
        let f = fields(s.drop_last(), sep);
        if s.last() == sep {
            f.push(Seq::empty())
        } else {
            f.update(f.len() - 1, f.last().push(s.last()))
        }
    }
}

pub proof fn lemma_fields_nonempty(s: Seq<char>, sep: char)
    ensures
        fields(s, sep).len() >= 1,
    decreases s.len(),
{
    if s.len() > 0 {
        lemma_fields_nonempty(s.drop_last(), sep);
    }
}

/// The text that a span of positions covers.
pub open spec fn piece(s: Seq<char>, span: (usize, usize)) -> Seq<char> {
    s.subrange(span.0 as int, span.1 as int)
}

/// `spans` lists, in order, the positions of the pieces of `s[from..to]` between
/// occurrences of `sep`.
pub open spec fn spans_of_fields(
    s: Seq<char>,
    from: int,
    to: int,
    sep: char,
    spans: Seq<(usize, usize)>,
) -> bool {
    &&& spans.len() == fields(s.subrange(from, to), sep).len()
    &&& forall|k: int|
        #![trigger spans[k]]
        0 <= k < spans.len() ==> {
            &&& from <= spans[k].0 <= spans[k].1 <= to
            &&& piece(s, spans[k]) == fields(s.subrange(from, to), sep)[k]
        }
}

/// Splits `s[from..to]` at every `sep`, giving the positions of the pieces.
pub fn split_spans(s: &str, from: usize, to: usize, sep: char) -> (spans: Vec<(usize, usize)>)
    requires
        from <= to <= s@.len(),
    ensures
        spans_of_fields(s@, from as int, to as int, sep, spans@),
{
    let mut spans: Vec<(usize, usize)> = Vec::new();
    spans.push((from, from));
    proof {
        assert(s@.subrange(from as int, from as int) =~= Seq::<char>::empty());
        assert(piece(s@, spans@[0]) =~= Seq::<char>::empty());
    }
    let mut i: usize = from;
    while i < to
        invariant
            from <= i <= to <= s@.len(),
            spans@.len() >= 1,
            spans@.last().1 == i,
            spans_of_fields(s@, from as int, i as int, sep, spans@),
        decreases to - i,
    {
        let c = s.get_char(i);
        let ghost prev = s@.subrange(from as int, i as int);
        let ghost next = s@.subrange(from as int, i + 1);
        let ghost old_spans = spans@;
        proof {
            assert(next.drop_last() =~= prev);
            assert(next.last() == c);
            lemma_fields_nonempty(prev, sep);
        }
        if c == sep {
            spans.push((i + 1, i + 1));
            proof {
                assert(piece(s@, spans@.last()) =~= Seq::<char>::empty());
                assert forall|k: int| 0 <= k < spans@.len() implies from <= spans@[k].0
                    <= spans@[k].1 <= i + 1 && piece(s@, spans@[k]) == fields(next, sep)[k] by {
                    if k < spans@.len() - 1 {
                        assert(spans@[k] == old_spans[k]);
                    }
                }
            }
        } else {
            let last = spans.len() - 1;
            let (a, _) = spans[last];
            spans.set(last, (a, i + 1));
            proof {
                assert(piece(s@, spans@[last as int]) =~= piece(s@, old_spans[last as int]).push(c));
                assert forall|k: int| 0 <= k < spans@.len() implies from <= spans@[k].0
                    <= spans@[k].1 <= i + 1 && piece(s@, spans@[k]) == fields(next, sep)[k] by {
                    if k < last {
                        assert(spans@[k] == old_spans[k]);
                    }
                }
            }
        }
        i = i + 1;
    }
    spans
}

pub open spec fn is_digit(c: char) -> bool {
    '0' <= c && c <= '9'
}

pub open spec fn digit_value(c: char) -> nat {
    (c as int - '0' as int) as nat
}

pub open spec fn all_digits(t: Seq<char>) -> bool {
    forall|i: int| 0 <= i < t.len() ==> #[trigger] is_digit(t[i])
}

/// The value of a run of decimal digits, most significant first.
pub open spec fn digits_value(t: Seq<char>) -> nat
    decreases t.len(),
{
    if t.len() == 0 {
        0
    } else {
        digits_value(t.drop_last()) * 10 + digit_value(t.last())
    }
}

/// The digits of an unsigned decimal: a leading `+` is allowed and dropped, as
/// Rust's parsing of unsigned integers does.
pub open spec fn unsigned_digits(t: Seq<char>) -> Seq<char> {
    if t.len() > 0 && t[0] == '+' {
        t.drop_first()
    } else {
        t
    }
}

/// `t` reads as an unsigned decimal number (of any size).
pub open spec fn is_unsigned(t: Seq<char>) -> bool {
    unsigned_digits(t).len() > 0 && all_digits(unsigned_digits(t))
}

pub open spec fn unsigned_value(t: Seq<char>) -> nat {
    digits_value(unsigned_digits(t))
}

/// What reading a piece of text as an unsigned decimal with an upper bound gives.
#[derive(Debug, Clone, Copy, PartialEq, Eq, Structural)]
pub enum NumberScan {
    Value(u32),
    TooLarge,
    NotANumber,
}

/// How `t` reads as an unsigned decimal no larger than `limit`.
pub open spec fn scan_model(t: Seq<char>, limit: u32) -> NumberScan {
    if !is_unsigned(t) {
        NumberScan::NotANumber
    } else if unsigned_value(t) > limit {
        NumberScan::TooLarge
    } else {
        NumberScan::Value(unsigned_value(t) as u32)
    }
}

/// Reads the text under `span` as an unsigned decimal no larger than `limit`.
pub fn scan_unsigned(s: &str, span: (usize, usize), limit: u32) -> (r: NumberScan)
    requires
        span.0 <= span.1 <= s@.len(),
        limit <= 0xFFFF,
    ensures
        r == scan_model(piece(s@, span), limit),
{
    let (a, b) = span;
    let ghost t = piece(s@, span);
    let mut start: usize = a;
    if a < b && s.get_char(a) == '+' {
        start = a + 1;
    }
    let ghost d = s@.subrange(start as int, b as int);
    assert(unsigned_digits(t) =~= d);
    if start == b {
        return NumberScan::NotANumber;
    }
    let mut val: u32 = 0;
    let mut over = false;
    let mut i: usize = start;
    while i < b
        invariant
            a <= start <= i <= b <= s@.len(),
            d == s@.subrange(start as int, b as int),
            t == piece(s@, span),
            unsigned_digits(t) == d,
            limit <= 0xFFFF,
            all_digits(s@.subrange(start as int, i as int)),
            over ==> digits_value(s@.subrange(start as int, i as int)) > limit,
            !over ==> val == digits_value(s@.subrange(start as int, i as int)) && val <= limit,
        decreases b - i,
    {
        let c = s.get_char(i);
        let ghost prev = s@.subrange(start as int, i as int);
        let ghost next = s@.subrange(start as int, i + 1);
        proof {
            assert(next.drop_last() =~= prev);
            assert(next.last() == c);
            assert(d[i - start] == c);
        }
        if !('0' <= c && c <= '9') {
            assert(!is_digit(d[i - start]));
            return NumberScan::NotANumber;
        }
        if !over {
            let digit = (c as u32) - ('0' as u32);
            let nv = val * 10 + digit;
            if nv > limit {
                over = true;
            } else {
                val = nv;
            }
        }
        proof {
            assert forall|j: int| 0 <= j < next.len() implies #[trigger] is_digit(next[j]) by {
                if j < prev.len() {
                    assert(next[j] == prev[j]);
                }
            }
        }
        i = i + 1;
    }
    assert(s@.subrange(start as int, i as int) =~= d);
    if over {
        NumberScan::TooLarge
    } else {
        NumberScan::Value(val)
    }
}

/// One part of a dotted IPv4 literal as Rust reads it: one to three digits, no
/// leading zero, at most 255.
pub open spec fn is_octet(t: Seq<char>) -> bool {
    &&& 1 <= t.len() <= 3
    &&& all_digits(t)
    &&& t.len() > 1 ==> t[0] != '0'
    &&& digits_value(t) <= 255
}

/// `t` is an IPv4 literal in dotted-quad form.
pub open spec fn is_ipv4(t: Seq<char>) -> bool {
    let p = fields(t, '.');
    p.len() == 4 && forall|k: int| 0 <= k < 4 ==> #[trigger] is_octet(p[k])
}

/// The four octets of an IPv4 literal.
pub open spec fn ipv4_octets(t: Seq<char>) -> Seq<u8> {
    let p = fields(t, '.');
    Seq::new(4, |k: int| digits_value(p[k]) as u8)
}

/// Reads the text under `span` as one octet of an IPv4 literal.
fn scan_octet(s: &str, span: (usize, usize)) -> (r: Option<u8>)
    requires
        span.0 <= span.1 <= s@.len(),
    ensures
        r is Some <==> is_octet(piece(s@, span)),
        r matches Some(v) ==> v == digits_value(piece(s@, span)),
{
    let (a, b) = span;
    let ghost t = piece(s@, span);
    if a == b || b - a > 3 {
        return None;
    }
    let first = s.get_char(a);
    assert(t[0] == first);
    if !('0' <= first && first <= '9') {
        assert(!is_digit(t[0]));
        return None;
    }
    if b - a > 1 && first == '0' {
        return None;
    }
    assert(unsigned_digits(t) == t);
    match scan_unsigned(s, span, 255) {
        NumberScan::Value(v) => Some(v as u8),
        _ => None,
    }
}

/// Reads the text under `span` as an IPv4 literal, giving its octets.
pub fn scan_ipv4(s: &str, span: (usize, usize)) -> (r: Option<[u8; 4]>)
    requires
        span.0 <= span.1 <= s@.len(),
    ensures
        r is Some <==> is_ipv4(piece(s@, span)),
        r matches Some(o) ==> o@ == ipv4_octets(piece(s@, span)),
{
    let ghost t = piece(s@, span);
    let parts = split_spans(s, span.0, span.1, '.');
    assert(s@.subrange(span.0 as int, span.1 as int) == t);
    if parts.len() != 4 {
        return None;
    }
    let o0 = scan_octet(s, parts[0]);
    let o1 = scan_octet(s, parts[1]);
    let o2 = scan_octet(s, parts[2]);
    let o3 = scan_octet(s, parts[3]);
    let ghost p = fields(t, '.');
    proof {
        assert(piece(s@, parts@[0]) == p[0]);
        assert(piece(s@, parts@[1]) == p[1]);
        assert(piece(s@, parts@[2]) == p[2]);
        assert(piece(s@, parts@[3]) == p[3]);
    }
    match (o0, o1, o2, o3) {
        (Some(v0), Some(v1), Some(v2), Some(v3)) => {
            let r = [v0, v1, v2, v3];
            assert(r@ =~= ipv4_octets(t));
            Some(r)
        },
        _ => {
            proof {
                if o0 is None {
                    assert(!is_octet(p[0]));
                } else if o1 is None {
                    assert(!is_octet(p[1]));
                } else if o2 is None {
                    assert(!is_octet(p[2]));
                } else {
                    assert(!is_octet(p[3]));
                }
            }
            None
        },
    }
}

/// `a` comes before `b` in lexicographic order of code points, which is the
/// order of `String`.
pub open spec fn text_lt(a: Seq<char>, b: Seq<char>) -> bool
    decreases a.len(),
{
    if b.len() == 0 {
        false
    } else if a.len() == 0 {
        true
    } else if a[0] != b[0] {
        a[0] < b[0]
    } else {
        text_lt(a.drop_first(), b.drop_first())
    }
}

/// Of two different texts, one comes first.
pub proof fn lemma_text_lt_total(a: Seq<char>, b: Seq<char>)
    requires
        a != b,
    ensures
        text_lt(a, b) || text_lt(b, a),
    decreases a.len(),
{
    if a.len() > 0 && b.len() > 0 && a[0] == b[0] {
        if a.drop_first() == b.drop_first() {
            assert(a =~= seq![a[0]] + a.drop_first());
            assert(b =~= seq![b[0]] + b.drop_first());
        }
        lemma_text_lt_total(a.drop_first(), b.drop_first());
    } else if a.len() == 0 && b.len() == 0 {
        assert(a =~= b);
    }
}

/// No text comes before itself.
pub proof fn lemma_text_lt_irreflexive(a: Seq<char>)
    ensures
        !text_lt(a, a),
    decreases a.len(),
{
    if a.len() > 0 {
        lemma_text_lt_irreflexive(a.drop_first());
    }
}

/// The order of texts is transitive.
pub proof fn lemma_text_lt_transitive(a: Seq<char>, b: Seq<char>, c: Seq<char>)
    requires
        text_lt(a, b),
        text_lt(b, c),
    ensures
        text_lt(a, c),
    decreases a.len(),
{
    if a.len() > 0 && a[0] == b[0] && b[0] == c[0] {
        lemma_text_lt_transitive(a.drop_first(), b.drop_first(), c.drop_first());
    }
}

} // verus!
