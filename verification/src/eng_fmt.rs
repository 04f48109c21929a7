//! Engineering notation: the SI prefixes printed for each power of a
//! thousand, and the prefixes accepted when a value is typed in.
use vstd::prelude::*;

verus! {

/// The prefix printed for values of magnitude `1000^mag`, for plain numbers.
pub open spec fn eng_prefix(mag: int) -> Option<Seq<char>> {
    if mag == 4 {
        Some(seq!['T'])
    } else if mag == 3 {
        Some(seq!['G'])
    } else if mag == 2 {
        Some(seq!['M'])
    } else if mag == 1 {
        Some(seq!['k'])
    } else if mag == -1 {
        Some(seq!['m'])
    } else if mag == -2 {
        Some(seq!['μ'])
    } else if mag == -3 {
        Some(seq!['n'])
    } else if mag == -4 {
        Some(seq!['p'])
    } else if mag == -5 {
        Some(seq!['f'])
    } else {
        None
    }
}

/// The power of ten a typed prefix stands for.
pub open spec fn prefix_exponent(c: char) -> Option<i32> {
    if c == 'T' {
        Some(12i32)
    } else if c == 'G' {
        Some(9i32)
    } else if c == 'M' {
        Some(6i32)
    } else if c == 'k' {
        Some(3i32)
    } else if c == 'm' {
        Some(-3i32)
    } else if c == 'μ' || c == 'u' {
        Some(-6i32)
    } else if c == 'n' {
        Some(-9i32)
    } else if c == 'p' {
        Some(-12i32)
    } else if c == 'f' {
        Some(-15i32)
    } else {
        None
    }
}

/// The prefix printed for values of magnitude `1000^mag`, as `eng_prefix`
/// says; magnitude zero and magnitudes out of range print none.
pub fn eng_prefix_for(mag: i32) -> (r: Option<&'static str>)
    ensures
        match eng_prefix(mag as int) {
            Some(p) => r is Some && r.unwrap()@ == p,
            None => r is None,
        },
{
    proof {
        reveal_strlit("T");
        reveal_strlit("G");
        reveal_strlit("M");
        reveal_strlit("k");
        reveal_strlit("m");
        reveal_strlit("μ");
        reveal_strlit("n");
        reveal_strlit("p");
        reveal_strlit("f");
    }
    let r = match mag {
        4 => Some("T"),
        3 => Some("G"),
        2 => Some("M"),
        1 => Some("k"),
        -1 => Some("m"),
        -2 => Some("μ"),
        -3 => Some("n"),
        -4 => Some("p"),
        -5 => Some("f"),
        _ => None,
    };
    proof {
        if r is Some {
            assert(r.unwrap()@ =~= eng_prefix(mag as int).unwrap());
        }
    }
    r
}

/// The unit printed for lengths of magnitude `1000^mag`, from femtometres to
/// terametres.
pub fn meters_unit_for(mag: i32) -> (r: Option<&'static str>)
    ensures
        (-5 <= mag <= 4) == (r is Some),
        mag == 0 ==> r.unwrap()@ == "m"@,
        mag != 0 && r is Some ==> r.unwrap()@ == eng_prefix(mag as int).unwrap() + seq!['m'],
{
    proof {
        reveal_strlit("Tm");
        reveal_strlit("Gm");
        reveal_strlit("Mm");
        reveal_strlit("km");
        reveal_strlit("m");
        reveal_strlit("mm");
        reveal_strlit("μm");
        reveal_strlit("nm");
        reveal_strlit("pm");
        reveal_strlit("fm");
    }
    let r = match mag {
        4 => Some("Tm"),
        3 => Some("Gm"),
        2 => Some("Mm"),
        1 => Some("km"),
        0 => Some("m"),
        -1 => Some("mm"),
        -2 => Some("μm"),
        -3 => Some("nm"),
        -4 => Some("pm"),
        -5 => Some("fm"),
        _ => None,
    };
    proof {
        if r is Some && mag != 0 {
            assert(r.unwrap()@ =~= eng_prefix(mag as int).unwrap() + seq!['m']);
        }
    }
    r
}

/// The power of ten a typed prefix stands for, as `prefix_exponent` says.
pub fn multiplier_exponent_for_char(c: char) -> (r: Option<i32>)
    ensures
        r == prefix_exponent(c),
{
    match c {
        'T' => Some(12),
        'G' => Some(9),
        'M' => Some(6),
        'k' => Some(3),
        'm' => Some(-3),
        'μ' => Some(-6),
        'u' => Some(-6),
        'n' => Some(-9),
        'p' => Some(-12),
        'f' => Some(-15),
        _ => None,
    }
}

/// Every printed prefix reads back as its power of ten: the prefix printed
/// for `1000^mag` stands for `10^(3 mag)`.
pub proof fn lemma_prefix_roundtrip(mag: int)
    requires
        eng_prefix(mag) is Some,
    ensures
        eng_prefix(mag).unwrap().len() == 1,
        prefix_exponent(eng_prefix(mag).unwrap()[0]) == Some((3 * mag) as i32),
{
}

/// The SI prefixes by power of a thousand: tera, giga, mega, kilo, milli,
/// micro, nano, pico and femto print as `T G M k m μ n p f` for `1000^4`
/// down to `1000^-5`; no other magnitude has one.  Read back, each stands
/// for its power of ten, `u` standing for micro as well, and no other
/// character is a prefix.
pub proof fn lemma_si_prefixes(mag: int, c: char)
    ensures
        eng_prefix(4) == Some(seq!['T']),
        eng_prefix(3) == Some(seq!['G']),
        eng_prefix(2) == Some(seq!['M']),
        eng_prefix(1) == Some(seq!['k']),
        eng_prefix(-1) == Some(seq!['m']),
        eng_prefix(-2) == Some(seq!['μ']),
        eng_prefix(-3) == Some(seq!['n']),
        eng_prefix(-4) == Some(seq!['p']),
        eng_prefix(-5) == Some(seq!['f']),
        !(-5 <= mag <= 4) || mag == 0 ==> eng_prefix(mag) is None,
        prefix_exponent('T') == Some(12i32),
        prefix_exponent('G') == Some(9i32),
        prefix_exponent('M') == Some(6i32),
        prefix_exponent('k') == Some(3i32),
        prefix_exponent('m') == Some(-3i32),
        prefix_exponent('μ') == Some(-6i32),
        prefix_exponent('u') == Some(-6i32),
        prefix_exponent('n') == Some(-9i32),
        prefix_exponent('p') == Some(-12i32),
        prefix_exponent('f') == Some(-15i32),
        c != 'T' && c != 'G' && c != 'M' && c != 'k' && c != 'm' && c != 'μ' && c != 'u' && c != 'n'
            && c != 'p' && c != 'f' ==> prefix_exponent(c) is None,
{
}

/// Whether `c` is ASCII whitespace: space, tab, line feed, form feed or
/// carriage return.
pub open spec fn is_ascii_ws(c: char) -> bool {
    c == ' ' || c == '\t' || c == '\n' || c == '\x0C' || c == '\r'
}

/// The position of the first character at or after `i` that is not ASCII
/// whitespace, or the length.
pub open spec fn skip_ws_forward(s: Seq<char>, i: int) -> int
    decreases s.len() - i,
{
    if i >= s.len() {
        s.len() as int
    } else if is_ascii_ws(s[i]) {
        skip_ws_forward(s, i + 1)
    } else {
        i
    }
}

/// The end of `s[..j]` once trailing ASCII whitespace is dropped.
pub open spec fn skip_ws_backward(s: Seq<char>, j: int) -> int
    decreases j,
{
    if j <= 0 {
        0
    } else if is_ascii_ws(s[j - 1]) {
        skip_ws_backward(s, j - 1)
    } else {
        j
    }
}

/// `s` without leading and trailing ASCII whitespace.
pub open spec fn trim_ascii(s: Seq<char>) -> Seq<char> {
    let a = skip_ws_forward(s, 0);
    let b = skip_ws_backward(s, s.len() as int);
    if a < b { s.subrange(a, b) } else { Seq::empty() }
}

/// A typed value split into its number and the power of ten of its prefix:
/// the text is trimmed, and a last character that is a prefix is dropped
/// (with the whitespace before it) and stands for its power; otherwise the
/// power is zero.  Empty text has no value.
pub open spec fn split_si(s: Seq<char>) -> Option<(Seq<char>, i32)> {
    let t = trim_ascii(s);
    if t.len() == 0 {
        None
    } else {
        match prefix_exponent(t.last()) {
            Some(e) => Some((t.take(skip_ws_backward(t, t.len() - 1)), e)),
            None => Some((t, 0i32)),
        }
    }
}

proof fn lemma_skip_bounds(s: Seq<char>, i: int, j: int)
    requires
        0 <= i <= s.len(),
        0 <= j <= s.len(),
    ensures
        i <= skip_ws_forward(s, i) <= s.len(),
        0 <= skip_ws_backward(s, j) <= j,
        forall|k: int| i <= k < skip_ws_forward(s, i) ==> is_ascii_ws(#[trigger] s[k]),
        skip_ws_forward(s, i) < s.len() ==> !is_ascii_ws(s[skip_ws_forward(s, i)]),
        skip_ws_backward(s, j) > 0 ==> !is_ascii_ws(s[skip_ws_backward(s, j) - 1]),
    decreases s.len() - i + j,
{
    if i < s.len() && is_ascii_ws(s[i]) {
        lemma_skip_bounds(s, i + 1, j);
    }
    if j > 0 && is_ascii_ws(s[j - 1]) {
        lemma_skip_bounds(s, i, j - 1);
    }
}

/// `skip_ws_forward`, run on text.
fn skip_ws_fwd(s: &str, i: usize) -> (r: usize)
    requires
        i <= s@.len(),
    ensures
        r == skip_ws_forward(s@, i as int),
{
    let n = s.unicode_len();
    let mut k = i;
    while k < n
        invariant
            n == s@.len(),
            i <= k <= n,
            skip_ws_forward(s@, i as int) == skip_ws_forward(s@, k as int),
        decreases n - k,
    {
        let c = s.get_char(k);
        if !(c == ' ' || c == '\t' || c == '\n' || c == '\x0C' || c == '\r') {
            return k;
        }
        k = k + 1;
    }
    k
}

/// `skip_ws_backward`, run on text.
fn skip_ws_bwd(s: &str, j: usize) -> (r: usize)
    requires
        j <= s@.len(),
    ensures
        r == skip_ws_backward(s@, j as int),
{
    let mut k = j;
    while k > 0
        invariant
            k <= j <= s@.len(),
            skip_ws_backward(s@, j as int) == skip_ws_backward(s@, k as int),
        decreases k,
    {
        let c = s.get_char(k - 1);
        if !(c == ' ' || c == '\t' || c == '\n' || c == '\x0C' || c == '\r') {
            return k;
        }
        k = k - 1;
    }
    k
}

/// Splits a typed value into its number text and the power of ten of its
/// prefix, as `split_si` says.
pub fn split_si_suffix(s: &str) -> (r: Option<(String, i32)>)
    ensures
        match split_si(s@) {
            Some((num, e)) => r is Some && r.unwrap().0@ == num && r.unwrap().1 == e,
            None => r is None,
        },
{
    let n = s.unicode_len();
    let a = skip_ws_fwd(s, 0);
    let b = skip_ws_bwd(s, n);
    proof {
        lemma_skip_bounds(s@, 0, n as int);
    }
    if a >= b {
        return None;
    }
    let t = s.substring_char(a, b);
    let ghost tv = t@;
    assert(tv == trim_ascii(s@));
    let tn = b - a;
    let last = t.get_char(tn - 1);
    match multiplier_exponent_for_char(last) {
        Some(e) => {
            let end = skip_ws_bwd(t, tn - 1);
            proof {
                lemma_skip_bounds(tv, 0, tn - 1);
            }
            Some((String::from_str(t.substring_char(0, end)), e))
        },
        None => Some((String::from_str(t), 0)),
    }
}

} // verus!
