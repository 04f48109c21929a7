//! Names for frames stamped from the live scan: the series base name for
//! the first, then `base(1)`, `base(2)`, ..., skipping every number some
//! existing layer already uses.
use vstd::prelude::*;
use vstd::set_lib::{lemma_int_range, lemma_len_subset, set_int_range};

verus! {

/// Whether `c` is an ASCII decimal digit.
pub open spec fn is_digit(c: char) -> bool {
    '0' <= c && c <= '9'
}

/// The value of the digit `c`.
pub open spec fn digit_value(c: char) -> nat {
    (c as nat - '0' as nat) as nat
}

/// The character of the digit `d` (below ten).
pub open spec fn digit_char(d: nat) -> char {
    (d + '0' as nat) as char
}

/// The value of the decimal digits `d`.
pub open spec fn decimal_value(d: Seq<char>) -> nat
    decreases d.len(),
{
    if d.len() == 0 {
        0
    } else {
        decimal_value(d.drop_last()) * 10 + digit_value(d.last())
    }
}

/// The decimal digits of `k`, without leading zeros.
pub open spec fn decimal_chars(k: nat) -> Seq<char>
    decreases k,
{
    if k < 10 {
        seq![digit_char(k)]
    } else {
        decimal_chars(k / 10).push(digit_char(k % 10))
    }
}

/// How text parses as a `usize`: an optional `+`, then one or more decimal
/// digits whose value fits.
pub open spec fn parse_usize(s: Seq<char>) -> Option<usize> {
    let d = sign_stripped(s);
    if d.len() > 0 && all_digits(d) && decimal_value(d) <= usize::MAX {
        Some(decimal_value(d) as usize)
    } else {
        None
    }
}

/// `s` without a leading `+`.
pub open spec fn sign_stripped(s: Seq<char>) -> Seq<char> {
    if s.len() > 0 && s[0] == '+' {
        s.skip(1)
    } else {
        s
    }
}

/// Whether every character of `d` is a decimal digit.
pub open spec fn all_digits(d: Seq<char>) -> bool {
    forall|i: int| 0 <= i < d.len() ==> is_digit(#[trigger] d[i])
}

/// The stamp number a layer called `name` uses for the base name `base`:
/// `0` for the base name itself, `k` for `base(k)` where `k` parses as a
/// `usize`, none otherwise.
pub open spec fn stamp_index(name: Seq<char>, base: Seq<char>) -> Option<usize> {
    if name.len() >= base.len() && name.take(base.len() as int) == base {
        let rest = name.skip(base.len() as int);
        if rest.len() == 0 {
            Some(0)
        } else if rest.len() >= 2 && rest[0] == '(' && rest.last() == ')' {
            parse_usize(rest.subrange(1, rest.len() - 1))
        } else {
            None
        }
    } else {
        None
    }
}

/// Whether some name in `names` uses stamp number `k`.
pub open spec fn taken(names: Seq<Seq<char>>, base: Seq<char>, k: int) -> bool {
    0 <= k <= usize::MAX && exists|j: int| 0 <= j < names.len() && stamp_index(#[trigger] names[j], base) == Some(k as usize)
}

/// The name of stamp number `k`: the base itself for `0`, `base(k)` after.
pub open spec fn stamp_name(base: Seq<char>, k: nat) -> Seq<char> {
    if k == 0 {
        base
    } else {
        base + seq!['('] + decimal_chars(k) + seq![')']
    }
}

/// Whether `k` is the first stamp number from `start` on that no name uses.
pub open spec fn is_first_free(names: Seq<Seq<char>>, base: Seq<char>, start: int, k: int) -> bool {
    &&& start <= k
    &&& !taken(names, base, k)
    &&& forall|j: int| start <= j < k ==> taken(names, base, j)
}

/// The first stamp number from `start` on that no name uses.
pub open spec fn first_free(names: Seq<Seq<char>>, base: Seq<char>, start: int) -> int {
    choose|k: int| is_first_free(names, base, start, k)
}

/// The names given to `count` stamps in turn, each one joining the names
/// before the next is chosen, numbers counting on from `start`.
pub open spec fn stamp_names_from(names: Seq<Seq<char>>, base: Seq<char>, start: int, count: nat) -> Seq<
    Seq<char>,
>
    decreases count,
{
    if count == 0 {
        Seq::empty()
    } else {
        let k = first_free(names, base, start);
        let name = stamp_name(base, k as nat);
        seq![name] + stamp_names_from(names.push(name), base, k + 1, (count - 1) as nat)
    }
}

/// A run of numbers all in use needs as many names.
pub proof fn lemma_taken_run_len(names: Seq<Seq<char>>, base: Seq<char>, lo: int, hi: int)
    requires
        lo <= hi,
        forall|j: int| lo <= j < hi ==> taken(names, base, j),
    ensures
        hi - lo <= names.len(),
{
    let vals = Seq::new(
        names.len(),
        |j: int|
            match stamp_index(names[j], base) {
                Some(v) => v as int,
                None => -1,
            },
    );
    lemma_int_range(lo, hi);
    vals.lemma_cardinality_of_set();
    assert forall|v: int| set_int_range(lo, hi).contains(v) implies vals.to_set().contains(v) by {
        assert(taken(names, base, v));
        let j = choose|j: int| 0 <= j < names.len() && stamp_index(#[trigger] names[j], base) == Some(v as usize);
        assert(vals[j] == v);
    }
    lemma_len_subset(set_int_range(lo, hi), vals.to_set());
}

/// The first free number is unique.
pub proof fn lemma_first_free_unique(names: Seq<Seq<char>>, base: Seq<char>, start: int, k: int)
    requires
        is_first_free(names, base, start, k),
    ensures
        first_free(names, base, start) == k,
{
    let c = first_free(names, base, start);
    assert(is_first_free(names, base, start, c));
    if c < k {
        assert(taken(names, base, c));
    } else if k < c {
        assert(taken(names, base, k));
    }
}

/// The decimal digits of `k` are digits, read back as `k`.
pub proof fn lemma_decimal_chars(k: nat)
    ensures
        decimal_chars(k).len() > 0,
        forall|i: int| 0 <= i < decimal_chars(k).len() ==> is_digit(#[trigger] decimal_chars(k)[i]),
        decimal_value(decimal_chars(k)) == k,
    decreases k,
{
    if k < 10 {
        let c = digit_char(k);
        assert(c as nat == k + 48);
        assert(decimal_chars(k) =~= seq![c]);
        assert(decimal_chars(k).drop_last() =~= Seq::<char>::empty());
        assert(decimal_value(decimal_chars(k)) == decimal_value(Seq::<char>::empty()) * 10 + digit_value(c));
    } else {
        lemma_decimal_chars(k / 10);
        let c = digit_char(k % 10);
        assert(c as nat == k % 10 + 48);
        assert(k == (k / 10) * 10 + k % 10);
        let d = decimal_chars(k);
        assert(d.drop_last() =~= decimal_chars(k / 10));
        assert forall|i: int| 0 <= i < d.len() implies is_digit(#[trigger] d[i]) by {
            if i < d.len() - 1 {
                assert(d[i] == decimal_chars(k / 10)[i]);
            }
        }
    }
}

/// The name of stamp `k` uses number `k`.
pub proof fn lemma_stamp_name_index(base: Seq<char>, k: nat)
    requires
        k <= usize::MAX,
    ensures
        stamp_index(stamp_name(base, k), base) == Some(k as usize),
{
    let name = stamp_name(base, k);
    assert(name.take(base.len() as int) =~= base);
    if k > 0 {
        lemma_decimal_chars(k);
        let rest = name.skip(base.len() as int);
        let d = decimal_chars(k);
        assert(rest =~= seq!['('] + d + seq![')']);
        assert(rest.subrange(1, rest.len() - 1) =~= d);
        assert(d[0] != '+') by {
            assert(is_digit(d[0]));
        }
    } else {
        assert(name.skip(base.len() as int) =~= Seq::<char>::empty());
    }
}

/// The name chosen for the first free number is not among the names.
pub proof fn lemma_stamp_name_fresh(names: Seq<Seq<char>>, base: Seq<char>, k: int)
    requires
        0 <= k <= usize::MAX,
        !taken(names, base, k),
    ensures
        !names.contains(stamp_name(base, k as nat)),
{
    lemma_stamp_name_index(base, k as nat);
    if names.contains(stamp_name(base, k as nat)) {
        let j = choose|j: int| 0 <= j < names.len() && names[j] == stamp_name(base, k as nat);
        assert(stamp_index(names[j], base) == Some(k as usize));
        assert(taken(names, base, k));
    }
}

/// Scans on from `j` for the first free number, every number below `j`
/// being in use.
proof fn lemma_first_free_scan(names: Seq<Seq<char>>, base: Seq<char>, start: int, j: int) -> (k: int)
    requires
        0 <= start <= j,
        names.len() < usize::MAX,
        forall|q: int| 0 <= q < j ==> taken(names, base, q),
    ensures
        is_first_free(names, base, start, k),
        k <= names.len(),
    decreases names.len() + 1 - j,
{
    lemma_taken_run_len(names, base, 0, j);
    if taken(names, base, j) {
        lemma_first_free_scan(names, base, start, j + 1)
    } else {
        j
    }
}

/// When every number below `start` is in use, a first free number exists
/// and is at most the number of names.
pub proof fn lemma_first_free_exists(names: Seq<Seq<char>>, base: Seq<char>, start: int)
    requires
        0 <= start,
        names.len() < usize::MAX,
        forall|q: int| 0 <= q < start ==> taken(names, base, q),
    ensures
        is_first_free(names, base, start, first_free(names, base, start)),
        first_free(names, base, start) <= names.len(),
{
    let k = lemma_first_free_scan(names, base, start, start);
    lemma_first_free_unique(names, base, start, k);
}

/// The names chosen for a run of stamps are new: none is among the existing
/// names and no two are the same (every number below `start` in use, as at
/// the start of a run).
pub proof fn lemma_stamp_names_fresh(names: Seq<Seq<char>>, base: Seq<char>, start: int, count: nat)
    requires
        0 <= start,
        names.len() + count < usize::MAX,
        forall|q: int| 0 <= q < start ==> taken(names, base, q),
    ensures
        stamp_names_from(names, base, start, count).len() == count,
        forall|i: int|
            0 <= i < count ==> !names.contains(#[trigger] stamp_names_from(names, base, start, count)[i]),
        forall|i: int, j: int|
            0 <= i < j < count ==> stamp_names_from(names, base, start, count)[i] != stamp_names_from(
                names,
                base,
                start,
                count,
            )[j],
    decreases count,
{
    if count > 0 {
        lemma_first_free_exists(names, base, start);
        let k = first_free(names, base, start);
        let name = stamp_name(base, k as nat);
        lemma_stamp_name_fresh(names, base, k);
        lemma_stamp_name_index(base, k as nat);
        let more = names.push(name);
        assert forall|q: int| 0 <= q < k + 1 implies taken(more, base, q) by {
            if q < k {
                assert(taken(names, base, q));
                let w = choose|w: int| 0 <= w < names.len() && stamp_index(#[trigger] names[w], base) == Some(
                    q as usize,
                );
                assert(more[w] == names[w]);
            } else {
                assert(more[names.len() as int] == name);
            }
        }
        lemma_stamp_names_fresh(more, base, k + 1, (count - 1) as nat);
        let rest = stamp_names_from(more, base, k + 1, (count - 1) as nat);
        let all = stamp_names_from(names, base, start, count);
        assert(all == seq![name] + rest);
        assert forall|i: int| 0 <= i < count implies !names.contains(#[trigger] all[i]) by {
            if i > 0 {
                assert(all[i] == rest[i - 1]);
                if names.contains(all[i]) {
                    let w = choose|w: int| 0 <= w < names.len() && names[w] == all[i];
                    assert(more[w] == all[i]);
                    assert(more.contains(rest[i - 1]));
                }
            }
        }
        assert forall|i: int, j: int| 0 <= i < j < count implies all[i] != all[j] by {
            if i == 0 {
                assert(all[j] == rest[j - 1]);
                assert(more[names.len() as int] == name);
                assert(more.contains(name));
            } else {
                assert(all[i] == rest[i - 1]);
                assert(all[j] == rest[j - 1]);
            }
        }
    }
}

/// The texts of some strings.
pub open spec fn texts(v: Seq<String>) -> Seq<Seq<char>> {
    v.map_values(|s: String| s@)
}

/// A longer run of digits never reads smaller.
proof fn lemma_decimal_prefix(d: Seq<char>, j: int)
    requires
        0 <= j <= d.len(),
    ensures
        decimal_value(d.take(j)) <= decimal_value(d),
    decreases d.len() - j,
{
    if j < d.len() {
        lemma_decimal_prefix(d, j + 1);
        assert(d.take(j + 1).drop_last() =~= d.take(j));
        assert(decimal_value(d.take(j + 1)) == decimal_value(d.take(j)) * 10 + digit_value(
            d.take(j + 1).last(),
        ));
    } else {
        assert(d.take(j) =~= d);
    }
}

/// The value of `s[from..to]` as `parse_usize` reads it.
fn parse_decimal_range(s: &str, from: usize, to: usize) -> (r: Option<usize>)
    requires
        from <= to <= s@.len(),
    ensures
        r == parse_usize(s@.subrange(from as int, to as int)),
{
    let ghost t = s@.subrange(from as int, to as int);
    let mut i = from;
    if i < to && s.get_char(i) == '+' {
        i = i + 1;
    }
    let ghost d = s@.subrange(i as int, to as int);
    assert(d =~= sign_stripped(t));
    if i == to {
        return None;
    }
    let mut value: u128 = 0;
    let mut j = i;
    while j < to
        invariant
            from <= i <= j <= to <= s@.len(),
            d == s@.subrange(i as int, to as int),
            t == s@.subrange(from as int, to as int),
            d == sign_stripped(t),
            d.len() > 0,
            value == decimal_value(d.take(j - i)),
            value <= usize::MAX,
            forall|q: int| 0 <= q < j - i ==> is_digit(#[trigger] d[q]),
        decreases to - j,
    {
        let c = s.get_char(j);
        if !('0' <= c && c <= '9') {
            assert(!is_digit(d[j - i]));
            assert(!all_digits(d));
            return None;
        }
        let digit = (c as u32 - '0' as u32) as u128;
        assert(d.take(j - i + 1).drop_last() =~= d.take(j - i));
        assert(d.take(j - i + 1).last() == c);
        value = value * 10 + digit;
        if value > usize::MAX as u128 {
            proof {
                lemma_decimal_prefix(d, j - i + 1);
            }
            return None;
        }
        j = j + 1;
    }
    assert(d.take(j - i) =~= d);
    Some(value as usize)
}

/// The stamp number the name `name` uses, as `stamp_index` says.
pub fn stamp_index_of(name: &str, base: &str) -> (r: Option<usize>)
    ensures
        r == stamp_index(name@, base@),
{
    let nl = name.unicode_len();
    let bl = base.unicode_len();
    if nl < bl {
        return None;
    }
    let mut i: usize = 0;
    while i < bl
        invariant
            nl == name@.len(),
            bl == base@.len(),
            bl <= nl,
            i <= bl,
            forall|q: int| 0 <= q < i ==> name@[q] == base@[q],
        decreases bl - i,
    {
        if name.get_char(i) != base.get_char(i) {
            assert(name@.take(bl as int)[i as int] != base@[i as int]);
            return None;
        }
        i = i + 1;
    }
    assert(name@.take(bl as int) =~= base@);
    let ghost rest = name@.skip(bl as int);
    if nl == bl {
        return Some(0);
    }
    if nl - bl >= 2 && name.get_char(bl) == '(' && name.get_char(nl - 1) == ')' {
        assert(rest.subrange(1, rest.len() - 1) =~= name@.subrange(bl + 1, nl - 1));
        parse_decimal_range(name, bl + 1, nl - 1)
    } else {
        None
    }
}

/// The one-character text of the digit `d`.
fn digit_str(d: usize) -> (r: &'static str)
    requires
        d < 10,
    ensures
        r@ == seq![digit_char(d as nat)],
{
    proof {
        reveal_strlit("0");
        reveal_strlit("1");
        reveal_strlit("2");
        reveal_strlit("3");
        reveal_strlit("4");
        reveal_strlit("5");
        reveal_strlit("6");
        reveal_strlit("7");
        reveal_strlit("8");
        reveal_strlit("9");
    }
    let r = if d == 0 {
        "0"
    } else if d == 1 {
        "1"
    } else if d == 2 {
        "2"
    } else if d == 3 {
        "3"
    } else if d == 4 {
        "4"
    } else if d == 5 {
        "5"
    } else if d == 6 {
        "6"
    } else if d == 7 {
        "7"
    } else if d == 8 {
        "8"
    } else {
        "9"
    };
    assert(r@ =~= seq![digit_char(d as nat)]);
    r
}

/// Appends the decimal digits of `k`.
fn append_decimal(s: &mut String, k: usize)
    ensures
        final(s)@ == old(s)@ + decimal_chars(k as nat),
    decreases k,
{
    if k < 10 {
        s.append(digit_str(k));
    } else {
        append_decimal(s, k / 10);
        s.append(digit_str(k % 10));
        assert(decimal_chars(k as nat) == decimal_chars((k / 10) as nat).push(digit_char((k % 10) as nat)));
        assert(final(s)@ =~= old(s)@ + decimal_chars(k as nat));
    }
}

/// The name of stamp number `k`, as `stamp_name` says.
pub fn stamp_name_string(base: &str, k: usize) -> (r: String)
    ensures
        r@ == stamp_name(base@, k as nat),
{
    let mut r = String::from_str(base);
    if k > 0 {
        proof {
            reveal_strlit("(");
            reveal_strlit(")");
        }
        r.append("(");
        append_decimal(&mut r, k);
        r.append(")");
        assert(r@ =~= stamp_name(base@, k as nat));
    }
    r
}

/// Whether some name in `names` uses stamp number `k`.
fn is_taken(names: &[String], base: &str, k: usize) -> (r: bool)
    ensures
        r == taken(texts(names@), base@, k as int),
{
    let n = names.len();
    let mut j: usize = 0;
    while j < n
        invariant
            n == names@.len(),
            j <= n,
            forall|q: int| 0 <= q < j ==> stamp_index(#[trigger] texts(names@)[q], base@) != Some(k),
        decreases n - j,
    {
        if stamp_index_of(names[j].as_str(), base) == Some(k) {
            assert(stamp_index(texts(names@)[j as int], base@) == Some(k));
            return true;
        }
        j = j + 1;
    }
    false
}

/// The first number from `start` on that no name uses, given either room
/// above `start` or every number below `start` in use.
fn search_free(names: &[String], base: &str, start: usize) -> (k: usize)
    requires
        names@.len() < usize::MAX,
        start + names@.len() < usize::MAX || forall|j: int| 0 <= j < start ==> taken(texts(names@), base@, j),
    ensures
        is_first_free(texts(names@), base@, start as int, k as int),
        k < usize::MAX,
{
    let ghost t = texts(names@);
    proof {
        if !(start + names@.len() < usize::MAX) {
            lemma_taken_run_len(t, base@, 0, start as int);
        }
    }
    let mut k = start;
    while is_taken(names, base, k)
        invariant
            names@.len() < usize::MAX,
            start + names@.len() < usize::MAX || forall|j: int| 0 <= j < start ==> taken(t, base@, j),
            t == texts(names@),
            start <= k,
            k < usize::MAX,
            forall|j: int| start <= j < k ==> taken(t, base@, j),
        decreases usize::MAX - k,
    {
        proof {
            if start + names@.len() < usize::MAX {
                lemma_taken_run_len(t, base@, start as int, k + 1);
            } else {
                lemma_taken_run_len(t, base@, 0, k + 1);
            }
        }
        k = k + 1;
    }
    k
}

/// The first stamp number from `start` on that no name in `names` uses.
pub fn first_free_stamp(names: &[String], base: &str, start: usize) -> (k: usize)
    requires
        start + names@.len() < usize::MAX,
    ensures
        k == first_free(texts(names@), base@, start as int),
        k < usize::MAX,
{
    let k = search_free(names, base, start);
    proof {
        lemma_first_free_unique(texts(names@), base@, start as int, k as int);
    }
    k
}

/// The names for `count` new stamps of the series `base`, given the names
/// of the existing layers: each takes the first free number from the last
/// one on, as `stamp_names_from` says, and joins the names before the next
/// is chosen.
pub fn stamp_names(names: &[String], base: &str, count: usize) -> (r: Vec<String>)
    requires
        names@.len() + count < usize::MAX,
    ensures
        texts(r@) == stamp_names_from(texts(names@), base@, 0, count as nat),
{
    let mut all: Vec<String> = Vec::new();
    let n = names.len();
    let mut j: usize = 0;
    while j < n
        invariant
            n == names@.len(),
            j <= n,
            all@.len() == j,
            texts(all@) == texts(names@).take(j as int),
        decreases n - j,
    {
        let ghost prev = all@;
        all.push(names[j].clone());
        assert(all@ == prev.push(names@[j as int]));
        assert forall|q: int| 0 <= q < j + 1 implies #[trigger] texts(all@)[q] == texts(names@)[q] by {
            if q < j {
                assert(texts(all@)[q] == all@[q]@);
                assert(all@[q] == prev[q]);
                assert(texts(prev)[q] == prev[q]@);
            }
        }
        assert(texts(all@) =~= texts(names@).take(j as int + 1));
        j = j + 1;
    }
    assert(texts(names@).take(n as int) =~= texts(names@));
    let mut r: Vec<String> = Vec::new();
    let mut start: usize = 0;
    let mut i: usize = 0;
    while i < count
        invariant
            i <= count,
            n + count < usize::MAX,
            all@.len() == n + i,
            forall|q: int| 0 <= q < start ==> taken(texts(all@), base@, q),
            texts(r@) + stamp_names_from(texts(all@), base@, start as int, (count - i) as nat)
                == stamp_names_from(texts(names@), base@, 0, count as nat),
        decreases count - i,
    {
        let ghost before = texts(all@);
        let k = search_free(all.as_slice(), base, start);
        proof {
            lemma_first_free_unique(before, base@, start as int, k as int);
        }
        let name = stamp_name_string(base, k);
        r.push(name.clone());
        all.push(name);
        proof {
            assert(texts(all@) =~= before.push(stamp_name(base@, k as nat)));
            lemma_stamp_name_index(base@, k as nat);
            assert forall|q: int| 0 <= q < k + 1 implies taken(texts(all@), base@, q) by {
                if q < k {
                    if q < start {
                        assert(taken(before, base@, q));
                    } else {
                        assert(taken(before, base@, q));
                    }
                    let w = choose|w: int| 0 <= w < before.len() && stamp_index(#[trigger] before[w], base@)
                        == Some(q as usize);
                    assert(texts(all@)[w] == before[w]);
                } else {
                    assert(texts(all@)[before.len() as int] == stamp_name(base@, k as nat));
                }
            }
            let rest = stamp_names_from(texts(all@), base@, k + 1, (count - i - 1) as nat);
            assert(stamp_names_from(before, base@, start as int, (count - i) as nat) == seq![
                stamp_name(base@, k as nat),
            ] + rest);
            assert(texts(r@) =~= texts(r@).drop_last().push(stamp_name(base@, k as nat)));
            assert(texts(r@) + rest =~= texts(r@).drop_last() + (seq![stamp_name(base@, k as nat)] + rest));
        }
        start = k + 1;
        i = i + 1;
    }
    assert(stamp_names_from(texts(all@), base@, start as int, 0) =~= Seq::<Seq<char>>::empty());
    assert(texts(r@) + Seq::<Seq<char>>::empty() =~= texts(r@));
    r
}

} // verus!
