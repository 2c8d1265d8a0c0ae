//! Texts: comparing, finding, splitting, ordering, and numbers in decimal notation.
use vstd::prelude::*;

verus! {

/// The contents of a list of strings.
pub open spec fn texts(list: Seq<String>) -> Seq<Seq<char>> {
    list.map_values(|s: String| s@)
}

/// The contents of a list of string slices.
pub open spec fn slices(list: Seq<&str>) -> Seq<Seq<char>> {
    list.map_values(|s: &str| s@)
}

/// The contents of an optional string slice.
pub open spec fn text_of(s: Option<&str>) -> Option<Seq<char>> {
    match s {
        Some(t) => Some(t@),
        None => None,
    }
}

/// The contents of an optional string.
pub open spec fn string_of(s: Option<String>) -> Option<Seq<char>> {
    match s {
        Some(t) => Some(t@),
        None => None,
    }
}

/// Whether two texts hold the same characters.
pub(crate) fn same(a: &str, b: &str) -> (r: bool)
    ensures
        r == (a@ == b@),
{
    let x: &[u8] = a.as_bytes();
    let y: &[u8] = b.as_bytes();
    proof {
        vstd::utf8::encode_utf8_decode_utf8(a@);
        vstd::utf8::encode_utf8_decode_utf8(b@);
    }
    if x.len() != y.len() {
        return false;
    }
    let n: usize = x.len();
    let mut i: usize = 0;
    while i < n
        invariant
            i <= n,
            n == x@.len(),
            n == y@.len(),
            x@ == vstd::utf8::encode_utf8(a@),
            y@ == vstd::utf8::encode_utf8(b@),
            forall|k: int| 0 <= k < i ==> x@[k] == y@[k],
        decreases n - i,
    {
        if x[i] != y[i] {
            return false;
        }
        i += 1;
    }
    assert(x@ =~= y@);
    true
}

/// The place of the first item equal to `name`, or the length of the list where there
/// is none.
pub open spec fn position(list: Seq<Seq<char>>, name: Seq<char>) -> int
    decreases list.len(),
{
    if list.len() == 0 || list[0] == name {
        0
    } else {
        1 + position(list.drop_first(), name)
    }
}

/// `position` is the least place at which `name` stands.
pub proof fn position_is_first(list: Seq<Seq<char>>, name: Seq<char>)
    ensures
        0 <= position(list, name) <= list.len(),
        position(list, name) < list.len() ==> list[position(list, name)] == name,
        forall|k: int| 0 <= k < position(list, name) ==> #[trigger] list[k] != name,
        position(list, name) < list.len() <==> list.contains(name),
    decreases list.len(),
{
    if list.len() == 0 || list[0] == name {
    } else {
        let rest = list.drop_first();
        position_is_first(rest, name);
        assert forall|k: int| 0 <= k < position(list, name) implies #[trigger] list[k] != name by {
            if k > 0 {
                assert(rest[k - 1] == list[k]);
            }
        }
        if position(list, name) < list.len() {
            assert(list.contains(list[position(list, name)]));
        } else if list.contains(name) {
            let k = choose|k: int| 0 <= k < list.len() && list[k] == name;
            assert(rest[k - 1] == name);
        }
    }
}

/// Finds the first string equal to `name`; the length of the list where there is none.
pub(crate) fn find(list: &[String], name: &str) -> (r: usize)
    ensures
        r == position(texts(list@), name@),
{
    let n: usize = list.len();
    let mut i: usize = 0;
    proof {
        position_is_first(texts(list@), name@);
    }
    while i < n
        invariant
            i <= n,
            n == list@.len(),
            forall|k: int| 0 <= k < i ==> #[trigger] texts(list@)[k] != name@,
            0 <= position(texts(list@), name@) <= n,
            position(texts(list@), name@) < n ==> texts(list@)[position(texts(list@), name@)]
                == name@,
            forall|k: int|
                0 <= k < position(texts(list@), name@) ==> #[trigger] texts(list@)[k] != name@,
        decreases n - i,
    {
        if same(list[i].as_str(), name) {
            assert(texts(list@)[i as int] == name@);
            return i;
        }
        i += 1;
    }
    i
}

/// Whether `name` is in a list.
pub(crate) fn includes(list: &Vec<&str>, name: &str) -> (r: bool)
    ensures
        r == slices(list@).contains(name@),
{
    let n: usize = list.len();
    let mut i: usize = 0;
    while i < n
        invariant
            i <= n,
            n == list@.len(),
            forall|k: int| 0 <= k < i ==> #[trigger] slices(list@)[k] != name@,
        decreases n - i,
    {
        if same(list[i], name) {
            assert(slices(list@)[i as int] == name@);
            return true;
        }
        i += 1;
    }
    false
}

/// The keys of a list of pairs.
pub open spec fn keys<T>(entries: Seq<(String, T)>) -> Seq<Seq<char>> {
    entries.map_values(|e: (String, T)| e.0@)
}

/// Finds the first pair with the key `key`; the length of the list where there is none.
pub(crate) fn find_key<T>(entries: &Vec<(String, T)>, key: &str) -> (r: usize)
    ensures
        r == position(keys(entries@), key@),
{
    let n: usize = entries.len();
    let mut i: usize = 0;
    proof {
        position_is_first(keys(entries@), key@);
    }
    while i < n
        invariant
            i <= n,
            n == entries@.len(),
            forall|k: int| 0 <= k < i ==> #[trigger] keys(entries@)[k] != key@,
            0 <= position(keys(entries@), key@) <= n,
            position(keys(entries@), key@) < n ==> keys(entries@)[position(keys(entries@), key@)]
                == key@,
            forall|k: int|
                0 <= k < position(keys(entries@), key@) ==> #[trigger] keys(entries@)[k] != key@,
        decreases n - i,
    {
        if same(entries[i].0.as_str(), key) {
            assert(keys(entries@)[i as int] == key@);
            return i;
        }
        i += 1;
    }
    i
}

/// A copy of a list of strings.
pub(crate) fn copy(list: &Vec<String>) -> (r: Vec<String>)
    ensures
        r@ == list@,
{
    let n: usize = list.len();
    let mut out: Vec<String> = Vec::new();
    let mut i: usize = 0;
    while i < n
        invariant
            i <= n,
            n == list@.len(),
            out@ == list@.take(i as int),
        decreases n - i,
    {
        out.push(list[i].clone());
        assert(out@ =~= list@.take(i + 1));
        i += 1;
    }
    assert(list@.take(n as int) =~= list@);
    out
}

/// The path of `rest`, a relative path, inside the directory `dir`.
pub open spec fn joined(dir: Seq<char>, rest: Seq<char>) -> Seq<char> {
    if dir.len() == 0 || dir.last() == '/' {
        dir + rest
    } else {
        dir + "/"@ + rest
    }
}

/// Appends a relative path to a directory, with a `/` between them where it is needed.
pub(crate) fn join_path(dir: &str, rest: &str) -> (r: String)
    ensures
        r@ == joined(dir@, rest@),
{
    let mut path: String = dir.to_owned();
    let n: usize = dir.unicode_len();
    if n > 0 && dir.get_char(n - 1) != '/' {
        path.append("/");
    }
    path.append(rest);
    path
}

/// The character of a decimal digit.
pub open spec fn digit(d: int) -> char {
    (48 + d) as char
}

/// A number in decimal notation.
pub open spec fn decimal(n: int) -> Seq<char>
    decreases n,
{
    if n < 10 {
        seq![digit(n)]
    } else {
        decimal(n / 10).push(digit(n % 10))
    }
}

/// Appends a decimal digit.
fn append_digit(out: &mut String, d: u32)
    requires
        d < 10,
    ensures
        final(out)@ == old(out)@.push(digit(d as int)),
{
    let ghost before = out@;
    let character: &str = match d {
        0 => "0",
        1 => "1",
        2 => "2",
        3 => "3",
        4 => "4",
        5 => "5",
        6 => "6",
        7 => "7",
        8 => "8",
        _ => "9",
    };
    proof {
        reveal_strlit("0");
        reveal_strlit("1");
        reveal_strlit("2");
        reveal_strlit("3");
        reveal_strlit("4");
        reveal_strlit("5");
        reveal_strlit("6");
        reveal_strlit("7");
        reveal_strlit("8");
        reveal_strlit("9");
        assert(character@ =~= seq![digit(d as int)]);
    }
    out.append(character);
    assert(out@ =~= before.push(digit(d as int)));
}

/// Appends a number in decimal notation.
pub(crate) fn append_decimal(out: &mut String, n: u32)
    ensures
        final(out)@ == old(out)@ + decimal(n as int),
    decreases n,
{
    let ghost before = out@;
    if n >= 10 {
        append_decimal(out, n / 10);
    }
    append_digit(out, n % 10);
    assert(out@ =~= before + decimal(n as int));
}

/// Whether a character has the Unicode property `White_Space`.
pub open spec fn blank(c: char) -> bool {
    let n = c as u32;
    ||| 0x9 <= n <= 0xd
    ||| n == 0x20
    ||| n == 0x85
    ||| n == 0xa0
    ||| n == 0x1680
    ||| 0x2000 <= n <= 0x200a
    ||| n == 0x2028
    ||| n == 0x2029
    ||| n == 0x202f
    ||| n == 0x205f
    ||| n == 0x3000
}

/// Decides whether a character has the Unicode property `White_Space`.
pub(crate) fn is_blank(c: char) -> (r: bool)
    ensures
        r == blank(c),
{
    let n: u32 = c as u32;
    (0x9 <= n && n <= 0xd) || n == 0x20 || n == 0x85 || n == 0xa0 || n == 0x1680 || (0x2000 <= n && n
        <= 0x200a) || n == 0x2028 || n == 0x2029 || n == 0x202f || n == 0x205f || n == 0x3000
}

/// A text without the white space at its start.
pub open spec fn trimmed_start(s: Seq<char>) -> Seq<char>
    decreases s.len(),
{
    if s.len() > 0 && blank(s[0]) {
        trimmed_start(s.drop_first())
    } else {
        s
    }
}

/// The characters of a text up to the first white space.
pub open spec fn leading_word(s: Seq<char>) -> Seq<char>
    decreases s.len(),
{
    if s.len() == 0 || blank(s[0]) {
        Seq::empty()
    } else {
        seq![s[0]] + leading_word(s.drop_first())
    }
}

/// The first word of a text; empty where there is none.
pub open spec fn first_word(s: Seq<char>) -> Seq<char> {
    leading_word(trimmed_start(s))
}

/// What follows the first word of a text.
pub open spec fn after_first_word(s: Seq<char>) -> Seq<char> {
    trimmed_start(s).skip(first_word(s).len() as int)
}

/// The parts of a list between the separators: one more than there are separators.
pub open spec fn pieces<T>(s: Seq<T>, separator: T) -> Seq<Seq<T>>
    decreases s.len(),
{
    if s.len() == 0 {
        seq![Seq::empty()]
    } else {
        let before = pieces(s.drop_last(), separator);
        if s.last() == separator {
            before.push(Seq::empty())
        } else {
            before.drop_last().push(before.last().push(s.last()))
        }
    }
}

/// Whether a text consists of decimal digits only.
pub open spec fn all_digits(s: Seq<char>) -> bool {
    forall|i: int| 0 <= i < s.len() ==> '0' <= #[trigger] s[i] <= '9'
}

/// The number that a text of decimal digits stands for.
pub open spec fn value(s: Seq<char>) -> int
    decreases s.len(),
{
    if s.len() == 0 {
        0
    } else {
        value(s.drop_last()) * 10 + (s.last() as int - '0' as int)
    }
}

/// The number a text denotes: decimal digits, with or without a `+` before them, that
/// stand for a number of at most 64 bits.
pub open spec fn number(s: Seq<char>) -> Option<int> {
    let digits = if s.len() > 0 && s[0] == '+' {
        s.drop_first()
    } else {
        s
    };
    if digits.len() > 0 && all_digits(digits) && value(digits) <= u64::MAX {
        Some(value(digits))
    } else {
        None
    }
}

/// The characters of a text.
pub(crate) fn characters(s: &str) -> (r: Vec<char>)
    ensures
        r@ == s@,
{
    let mut out: Vec<char> = Vec::new();
    for c in it: s.chars()
        invariant
            out@ == it.seq().take(it.index()),
            it.seq() == s@,
    {
        out.push(c);
        assert(out@ =~= it.seq().take(it.index() + 1));
    }
    assert(s@.take(s@.len() as int) =~= s@);
    out
}

/// Finds the end of the white space that starts at `from`.
pub(crate) fn skip_blanks(s: &Vec<char>, from: usize, to: usize) -> (r: usize)
    requires
        from <= to <= s@.len(),
    ensures
        from <= r <= to,
        s@.subrange(r as int, to as int) == trimmed_start(s@.subrange(from as int, to as int)),
{
    let mut i: usize = from;
    while i < to && is_blank(s[i])
        invariant
            from <= i <= to <= s@.len(),
            trimmed_start(s@.subrange(i as int, to as int)) == trimmed_start(
                s@.subrange(from as int, to as int),
            ),
        decreases to - i,
    {
        assert(s@.subrange(i as int, to as int).drop_first() =~= s@.subrange(i + 1, to as int));
        i += 1;
    }
    i
}

/// Finds the end of the word that starts at `from`.
pub(crate) fn word_end(s: &Vec<char>, from: usize, to: usize) -> (r: usize)
    requires
        from <= to <= s@.len(),
    ensures
        from <= r <= to,
        s@.subrange(from as int, r as int) == leading_word(s@.subrange(from as int, to as int)),
{
    let mut i: usize = from;
    let ghost whole = leading_word(s@.subrange(from as int, to as int));
    assert(s@.subrange(from as int, from as int) + whole =~= whole);
    while i < to && !is_blank(s[i])
        invariant
            from <= i <= to <= s@.len(),
            whole == s@.subrange(from as int, i as int) + leading_word(
                s@.subrange(i as int, to as int),
            ),
        decreases to - i,
    {
        assert(s@.subrange(i as int, to as int).drop_first() =~= s@.subrange(i + 1, to as int));
        assert(s@.subrange(from as int, i + 1) =~= s@.subrange(from as int, i as int).push(
            s@[i as int],
        ));
        assert(s@.subrange(from as int, i as int) + leading_word(s@.subrange(i as int, to as int))
            =~= s@.subrange(from as int, i + 1) + leading_word(s@.subrange(i + 1, to as int)));
        i += 1;
    }
    assert(s@.subrange(from as int, i as int) + Seq::<char>::empty() =~= s@.subrange(
        from as int,
        i as int,
    ));
    i
}

proof fn value_grows(s: Seq<char>, k: int)
    requires
        0 <= k <= s.len(),
        all_digits(s),
    ensures
        0 <= value(s.take(k)) <= value(s),
    decreases s.len(),
{
    if k == s.len() {
        assert(s.take(k) =~= s);
        if s.len() > 0 {
            assert(s.drop_last() =~= s.take(s.len() - 1));
            value_grows(s.drop_last(), s.len() - 1);
            assert('0' <= s[s.len() - 1] <= '9');
        }
    } else {
        value_grows(s.drop_last(), k);
        assert(s.drop_last().take(k) =~= s.take(k));
        assert('0' <= s[s.len() - 1] <= '9');
    }
}

/// Reads a number of at most 64 bits.
pub(crate) fn parse_number(s: &Vec<char>, from: usize, to: usize) -> (r: Option<u64>)
    requires
        from <= to <= s@.len(),
    ensures
        match r {
            Some(n) => number(s@.subrange(from as int, to as int)) == Some(n as int),
            None => number(s@.subrange(from as int, to as int)) is None,
        },
{
    let ghost all = s@.subrange(from as int, to as int);
    let start: usize = if from < to && s[from] == '+' {
        from + 1
    } else {
        from
    };
    let ghost digits = s@.subrange(start as int, to as int);
    assert(start > from ==> all.drop_first() =~= digits);
    if start == to {
        return None;
    }
    let mut total: u64 = 0;
    let mut i: usize = start;
    assert(digits.take(0) =~= Seq::empty());
    while i < to
        invariant
            from <= start <= i <= to <= s@.len(),
            digits == s@.subrange(start as int, to as int),
            digits == (if all.len() > 0 && all[0] == '+' {
                all.drop_first()
            } else {
                all
            }),
            all == s@.subrange(from as int, to as int),
            all_digits(digits.take(i - start)),
            total == value(digits.take(i - start)),
        decreases to - i,
    {
        let c: char = s[i];
        let ghost done = digits.take(i - start);
        let ghost next = digits.take(i + 1 - start);
        assert(digits[i - start] == c);
        assert(next.drop_last() =~= done);
        assert(next.last() == c);
        if c < '0' || c > '9' {
            return None;
        }
        let d: u64 = (c as u32 - '0' as u32) as u64;
        assert(value(next) == total * 10 + d);
        assert(all_digits(next)) by {
            assert forall|k: int| 0 <= k < next.len() implies '0' <= #[trigger] next[k] <= '9' by {
                if k < done.len() {
                    assert(next[k] == done[k]);
                }
            }
        }
        if total > 0xffff_ffff_ffff_ffffu64 / 10 || total * 10 > 0xffff_ffff_ffff_ffffu64 - d {
            proof {
                if all_digits(digits) {
                    value_grows(digits, i + 1 - start);
                }
            }
            return None;
        }
        total = total * 10 + d;
        i += 1;
    }
    assert(digits.take(digits.len() as int) =~= digits);
    Some(total)
}

/// Whether `prefix` stands in `s` at the place `at`.
pub(crate) fn stands_at(s: &Vec<char>, at: usize, prefix: &str) -> (r: bool)
    requires
        at <= s@.len(),
    ensures
        r == prefix@.is_prefix_of(s@.skip(at as int)),
{
    let p: Vec<char> = characters(prefix);
    let n: usize = p.len();
    let total: usize = s.len();
    if total - at < n {
        return false;
    }
    let mut i: usize = 0;
    while i < n
        invariant
            i <= n,
            n == p@.len(),
            p@ == prefix@,
            total == s@.len(),
            at + n <= total,
            forall|k: int| 0 <= k < i ==> #[trigger] p@[k] == s@[at + k],
        decreases n - i,
    {
        if s[at + i] != p[i] {
            assert(s@.skip(at as int).take(n as int)[i as int] == s@[at + i]);
            return false;
        }
        i += 1;
    }
    assert(s@.skip(at as int).subrange(0, n as int) =~= prefix@);
    true
}

/// Whether a text comes before another one in the order of a dictionary, by the numbers of
/// the characters.
pub open spec fn precedes(a: Seq<char>, b: Seq<char>) -> bool
    decreases a.len(),
{
    if b.len() == 0 {
        false
    } else if a.len() == 0 {
        true
    } else {
        a[0] < b[0] || (a[0] == b[0] && precedes(a.drop_first(), b.drop_first()))
    }
}

/// Of two different texts one comes before the other, and no text before itself.
pub proof fn order_is_total(a: Seq<char>, b: Seq<char>)
    ensures
        a == b ==> !precedes(a, b),
        a != b ==> precedes(a, b) != precedes(b, a),
    decreases a.len(),
{
    if a.len() == 0 || b.len() == 0 {
        if a.len() == 0 && b.len() == 0 {
            assert(a =~= b);
        }
    } else {
        order_is_total(a.drop_first(), b.drop_first());
        if a[0] == b[0] && a.drop_first() == b.drop_first() {
            assert(a =~= seq![a[0]] + a.drop_first());
            assert(b =~= seq![b[0]] + b.drop_first());
        }
    }
}

/// The order of texts is transitive.
pub proof fn order_is_transitive(a: Seq<char>, b: Seq<char>, c: Seq<char>)
    requires
        precedes(a, b),
        precedes(b, c),
    ensures
        precedes(a, c),
    decreases a.len(),
{
    if a.len() > 0 && a[0] == b[0] && b[0] == c[0] {
        order_is_transitive(a.drop_first(), b.drop_first(), c.drop_first());
    }
}

/// Whether `a` comes before `b` in the order of a dictionary.
pub(crate) fn comes_before(a: &str, b: &str) -> (r: bool)
    ensures
        r == precedes(a@, b@),
{
    let x: Vec<char> = characters(a);
    let y: Vec<char> = characters(b);
    let mut i: usize = 0;
    assert(x@.skip(0) =~= a@);
    assert(y@.skip(0) =~= b@);
    while i < x.len() && i < y.len() && x[i] == y[i]
        invariant
            i <= x@.len(),
            i <= y@.len(),
            precedes(a@, b@) == precedes(x@.skip(i as int), y@.skip(i as int)),
        decreases x@.len() - i,
    {
        assert(x@.skip(i as int).drop_first() =~= x@.skip(i + 1));
        assert(y@.skip(i as int).drop_first() =~= y@.skip(i + 1));
        i += 1;
    }
    if i == y.len() {
        false
    } else if i == x.len() {
        true
    } else {
        x[i] < y[i]
    }
}

/// Whether a list of texts is in order, without repetitions.
pub open spec fn ascending(list: Seq<Seq<char>>) -> bool {
    forall|i: int, j: int|
        0 <= i < j < list.len() ==> precedes(#[trigger] list[i], #[trigger] list[j])
}

/// A list of texts in order is determined by what it holds.
pub proof fn ascending_is_unique(a: Seq<Seq<char>>, b: Seq<Seq<char>>)
    requires
        ascending(a),
        ascending(b),
        forall|s: Seq<char>| #[trigger] a.contains(s) <==> b.contains(s),
    ensures
        a == b,
{
    assert(a.len() == b.len()) by {
        ascending_has_no_duplicates(a);
        ascending_has_no_duplicates(b);
        a.unique_seq_to_set();
        b.unique_seq_to_set();
        assert(a.to_set() =~= b.to_set());
    }
    assert forall|p: int| 0 <= p < a.len() implies #[trigger] a[p] == b[p] by {
        ascending_agree(a, b, p);
    }
    assert(a =~= b);
}

proof fn ascending_has_no_duplicates(a: Seq<Seq<char>>)
    requires
        ascending(a),
    ensures
        a.no_duplicates(),
{
    assert forall|i: int, j: int|
        0 <= i < a.len() && 0 <= j < a.len() && i != j implies a[i] != a[j] by {
        order_is_total(a[i], a[j]);
        if i < j {
            assert(precedes(a[i], a[j]));
        } else {
            assert(precedes(a[j], a[i]));
        }
    }
}

proof fn ascending_agree(a: Seq<Seq<char>>, b: Seq<Seq<char>>, p: int)
    requires
        ascending(a),
        ascending(b),
        a.len() == b.len(),
        forall|s: Seq<char>| #[trigger] a.contains(s) <==> b.contains(s),
        0 <= p < a.len(),
    ensures
        a[p] == b[p],
    decreases p,
{
    assert forall|k: int| 0 <= k < p implies #[trigger] a[k] == b[k] by {
        ascending_agree(a, b, k);
    }
    assert(a.contains(a[p]) && b.contains(b[p]));
    assert(b.contains(a[p]) && a.contains(b[p]));
    let q = choose|q: int| 0 <= q < b.len() && b[q] == a[p];
    let r = choose|r: int| 0 <= r < a.len() && a[r] == b[p];
    order_is_total(a[p], b[p]);
    if q < p {
        assert(a[q] == b[q]);
        assert(precedes(a[q], a[p]));
        order_is_total(a[p], a[p]);
    } else if r < p {
        assert(a[r] == b[r]);
        assert(precedes(b[r], b[p]));
        order_is_total(b[p], b[p]);
    } else if q > p && r > p {
        assert(precedes(b[p], b[q]));
        assert(precedes(a[p], a[r]));
    }
}

/// Puts a text into an ordered list, unless it is there already.
pub(crate) fn insert_sorted(list: &mut Vec<String>, item: String)
    requires
        ascending(texts(old(list)@)),
    ensures
        ascending(texts(final(list)@)),
        forall|s: Seq<char>| #[trigger]
            texts(final(list)@).contains(s) <==> texts(old(list)@).contains(s) || s == item@,
{
    let ghost before = texts(list@);
    let mut p: usize = 0;
    let n: usize = list.len();
    while p < n && comes_before(list[p].as_str(), item.as_str())
        invariant
            p <= n,
            n == list@.len(),
            before == texts(list@),
            forall|k: int| 0 <= k < p ==> precedes(#[trigger] before[k], item@),
        decreases n - p,
    {
        assert(before[p as int] == list@[p as int]@);
        p += 1;
    }
    if p < n && same(list[p].as_str(), item.as_str()) {
        assert(before[p as int] == item@);
        assert(before.contains(item@));
        return;
    }
    let ghost value = item@;
    list.insert(p, item);
    proof {
        let after = texts(list@);
        assert(after =~= before.insert(p as int, value));
        assert forall|i: int, j: int| 0 <= i < j < after.len() implies precedes(
            #[trigger] after[i],
            #[trigger] after[j],
        ) by {
            if p < n {
                order_is_total(before[p as int], value);
            }
            let a = if i < p { i } else { i - 1 };
            let b = if j < p { j } else { j - 1 };
            if i == p {
                if b > p {
                    assert(precedes(before[p as int], before[b]));
                    order_is_transitive(value, before[p as int], before[b]);
                }
            } else if j != p {
                assert(precedes(before[a], before[b]));
            }
        }
        assert forall|s: Seq<char>| #[trigger]
            after.contains(s) <==> before.contains(s) || s == value by {
            if before.contains(s) {
                let k = choose|k: int| 0 <= k < before.len() && before[k] == s;
                assert(after[if k < p { k } else { k + 1 }] == s);
            }
            if s == value {
                assert(after[p as int] == s);
            }
            if after.contains(s) && s != value {
                let k = choose|k: int| 0 <= k < after.len() && after[k] == s;
                assert(before[if k < p { k } else { k - 1 }] == s);
            }
        }
    }
}

/// A list without the items that equal the one right before them.
pub open spec fn without_repeats(list: Seq<Seq<char>>) -> Seq<Seq<char>>
    decreases list.len(),
{
    if list.len() <= 1 {
        list
    } else {
        let before = without_repeats(list.drop_last());
        if list.last() == list[list.len() - 2] {
            before
        } else {
            before.push(list.last())
        }
    }
}

/// Removes the items that equal the one right before them.
pub(crate) fn drop_repeats(list: &Vec<String>) -> (r: Vec<String>)
    ensures
        texts(r@) == without_repeats(texts(list@)),
{
    let ghost all = texts(list@);
    let n: usize = list.len();
    let mut out: Vec<String> = Vec::new();
    let mut i: usize = 0;
    assert(texts(out@) =~= all.take(0));
    while i < n
        invariant
            i <= n,
            n == list@.len(),
            all == texts(list@),
            texts(out@) == without_repeats(all.take(i as int)),
        decreases n - i,
    {
        let ghost upto = all.take(i + 1);
        assert(upto.drop_last() =~= all.take(i as int));
        assert(upto.last() == list@[i as int]@);
        let ghost before = texts(out@);
        if i == 0 || !same(list[i].as_str(), list[i - 1].as_str()) {
            out.push(list[i].clone());
            assert(texts(out@) =~= before.push(list@[i as int]@));
            assert(i == 0 ==> texts(out@) =~= upto);
        }
        assert(i > 0 ==> upto[upto.len() - 2] == list@[i - 1]@);
        i += 1;
    }
    assert(all.take(n as int) =~= all);
    out
}

/// The characters of a text before the first `separator`.
pub open spec fn up_to(s: Seq<char>, separator: char) -> Seq<char>
    decreases s.len(),
{
    if s.len() == 0 || s[0] == separator {
        Seq::empty()
    } else {
        seq![s[0]] + up_to(s.drop_first(), separator)
    }
}

/// The part of a text before the first `separator`; the whole text if there is none.
pub(crate) fn before_first<'a>(s: &'a str, separator: char) -> (r: &'a str)
    ensures
        r@ == up_to(s@, separator),
{
    let c: Vec<char> = characters(s);
    let mut i: usize = 0;
    assert(s@.skip(0) =~= s@);
    assert(s@.take(0) + up_to(s@, separator) =~= up_to(s@, separator));
    while i < c.len() && c[i] != separator
        invariant
            i <= c@.len(),
            c@ == s@,
            up_to(s@, separator) == s@.take(i as int) + up_to(s@.skip(i as int), separator),
        decreases c@.len() - i,
    {
        assert(s@.skip(i as int).drop_first() =~= s@.skip(i + 1));
        assert(s@.take(i as int) + up_to(s@.skip(i as int), separator) =~= s@.take(i + 1) + up_to(
            s@.skip(i + 1),
            separator,
        ));
        i += 1;
    }
    assert(s@.take(i as int) + Seq::<char>::empty() =~= s@.subrange(0, i as int));
    s.substring_char(0, i)
}

/// The contents of a list of strings are those of each string, in the same order.
pub proof fn texts_hold_each_string(list: Seq<String>, k: int)
    ensures
        texts(list).len() == list.len(),
        0 <= k < list.len() ==> texts(list)[k] == list[k]@,
{
}

/// The contents of a list of string slices are those of each slice, in the same order.
pub proof fn slices_hold_each_slice(list: Seq<&str>, k: int)
    ensures
        slices(list).len() == list.len(),
        0 <= k < list.len() ==> slices(list)[k] == list[k]@,
{
}

/// The keys of a list of pairs are the contents of the first parts, in the same order.
pub proof fn keys_hold_each_name<T>(entries: Seq<(String, T)>, k: int)
    ensures
        keys(entries).len() == entries.len(),
        0 <= k < entries.len() ==> keys(entries)[k] == entries[k].0@,
{
}

/// An optional text has contents exactly if it is there.
pub proof fn optional_contents(slice: &str, string: String)
    ensures
        text_of(Some(slice)) == Some(slice@),
        text_of(None) is None,
        string_of(Some(string)) == Some(string@),
        string_of(None) is None,
{
}

/// Joining a directory and a relative path keeps both and puts exactly one `/` between
/// them, unless the directory is empty or ends with one.
pub proof fn joining_keeps_both_parts(dir: Seq<char>, rest: Seq<char>)
    ensures
        ({
            let path = joined(dir, rest);
            let gap = path.len() - dir.len() - rest.len();
            &&& path.subrange(0, dir.len() as int) == dir
            &&& path.subrange(path.len() - rest.len(), path.len() as int) == rest
            &&& dir.len() == 0 || dir[dir.len() - 1] == '/' ==> gap == 0
            &&& dir.len() > 0 && dir[dir.len() - 1] != '/' ==> gap == 1 && path[dir.len() as int]
                == '/'
        }),
{
    reveal_strlit("/");
    let path = joined(dir, rest);
    assert(path.subrange(0, dir.len() as int) =~= dir);
    assert(path.subrange(path.len() - rest.len(), path.len() as int) =~= rest);
}

/// A text of digits stands for a number in positional notation with the base ten.
pub proof fn value_is_positional(s: Seq<char>, c: char)
    ensures
        value(Seq::empty()) == 0,
        value(s.push(c)) == value(s) * 10 + (c as int - 48),
{
    assert(s.push(c).drop_last() =~= s);
}

/// The decimal notation of a number consists of digits, stands for that number and has no
/// superfluous zero in front.
pub proof fn decimal_stands_for_its_number(n: int)
    requires
        0 <= n,
    ensures
        decimal(n).len() > 0,
        forall|i: int| 0 <= i < decimal(n).len() ==> 48 <= (#[trigger] decimal(n)[i]) as int <= 57,
        value(decimal(n)) == n,
        n > 0 ==> decimal(n)[0] as int != 48,
        n < 10 ==> decimal(n).len() == 1,
    decreases n,
{
    if n < 10 {
        value_is_positional(Seq::empty(), digit(n));
        assert(Seq::<char>::empty().push(digit(n)) =~= decimal(n));
    } else {
        decimal_stands_for_its_number(n / 10);
        value_is_positional(decimal(n / 10), digit(n % 10));
        assert forall|i: int| 0 <= i < decimal(n).len() implies 48 <= (
        #[trigger] decimal(n)[i]) as int <= 57 by {
            if i < decimal(n / 10).len() {
                assert(decimal(n)[i] == decimal(n / 10)[i]);
            }
        }
        assert(decimal(n)[0] == decimal(n / 10)[0]);
    }
}

/// A text of digits denotes the number it stands for, with or without a `+` in front, as
/// long as that number has at most 64 bits; with more it denotes none.
pub proof fn digits_denote_their_number(s: Seq<char>)
    requires
        s.len() > 0,
        forall|i: int| 0 <= i < s.len() ==> 48 <= (#[trigger] s[i]) as int <= 57,
    ensures
        value(s) <= 0xffff_ffff_ffff_ffff ==> number(s) == Some(value(s)) && number(seq!['+'] + s)
            == Some(value(s)),
        value(s) > 0xffff_ffff_ffff_ffff ==> number(s) is None && number(seq!['+'] + s) is None,
{
    assert(s[0] as int != 43);
    assert((seq!['+'] + s).drop_first() =~= s);
}

/// A text denotes no number if it is empty, a mere `+`, or holds anything but digits after
/// an optional `+`.
pub proof fn other_texts_denote_no_number(s: Seq<char>, i: int)
    ensures
        number(Seq::empty()) is None,
        number(seq!['+']) is None,
        0 <= i < s.len() && !(48 <= s[i] as int <= 57) && !(i == 0 && s[i] == '+') ==> number(s) is None,
{
    assert(seq!['+'].drop_first() =~= Seq::empty());
    if 0 <= i < s.len() && !(48 <= s[i] as int <= 57) && !(i == 0 && s[i] == '+') {
        if s[0] == '+' {
            assert(s.drop_first()[i - 1] == s[i]);
        }
    }
}

/// A number of at most 64 bits can be read back from its decimal notation.
pub proof fn decimal_is_read_back(n: int)
    requires
        0 <= n <= 0xffff_ffff_ffff_ffff,
    ensures
        number(decimal(n)) == Some(n),
{
    decimal_stands_for_its_number(n);
    digits_denote_their_number(decimal(n));
}

/// White space is made up of these twenty-five characters.
pub proof fn blanks_are_the_white_space_characters(c: char)
    ensures
        blank(c) <==> seq![
            9int,
            10,
            11,
            12,
            13,
            32,
            133,
            160,
            5760,
            8192,
            8193,
            8194,
            8195,
            8196,
            8197,
            8198,
            8199,
            8200,
            8201,
            8202,
            8232,
            8233,
            8239,
            8287,
            12288,
        ].contains(c as int),
{
    let all = seq![
        9int,
        10,
        11,
        12,
        13,
        32,
        133,
        160,
        5760,
        8192,
        8193,
        8194,
        8195,
        8196,
        8197,
        8198,
        8199,
        8200,
        8201,
        8202,
        8232,
        8233,
        8239,
        8287,
        12288,
    ];
    let n = c as int;
    if 9 <= n <= 13 {
        assert(all[n - 9] == n);
    } else if 8192 <= n <= 8202 {
        assert(all[n - 8183] == n);
    } else {
        assert(all[5] == 32 && all[6] == 133 && all[7] == 160 && all[8] == 5760);
        assert(all[20] == 8232 && all[21] == 8233 && all[22] == 8239 && all[23] == 8287 && all[24]
            == 12288);
    }
}

/// Trimming takes away the white space at the start, all of it and nothing else.
pub proof fn trimming_removes_leading_blanks(blanks: Seq<char>, rest: Seq<char>)
    requires
        forall|k: int| 0 <= k < blanks.len() ==> blank(#[trigger] blanks[k]),
        rest.len() > 0 ==> !blank(rest[0]),
    ensures
        trimmed_start(blanks + rest) == rest,
    decreases blanks.len(),
{
    if blanks.len() == 0 {
        assert(blanks + rest =~= rest);
    } else {
        assert((blanks + rest)[0] == blanks[0]);
        assert((blanks + rest).drop_first() =~= blanks.drop_first() + rest);
        assert forall|k: int| 0 <= k < blanks.drop_first().len() implies blank(
            #[trigger] blanks.drop_first()[k],
        ) by {
            assert(blanks.drop_first()[k] == blanks[k + 1]);
        }
        trimming_removes_leading_blanks(blanks.drop_first(), rest);
    }
}

proof fn leading_word_stops_at_blank(word: Seq<char>, rest: Seq<char>)
    requires
        forall|k: int| 0 <= k < word.len() ==> !blank(#[trigger] word[k]),
        rest.len() > 0 ==> blank(rest[0]),
    ensures
        leading_word(word + rest) == word,
    decreases word.len(),
{
    if word.len() == 0 {
        assert(word + rest =~= rest);
        assert(leading_word(rest) =~= word);
    } else {
        assert((word + rest)[0] == word[0]);
        assert((word + rest).drop_first() =~= word.drop_first() + rest);
        assert forall|k: int| 0 <= k < word.drop_first().len() implies !blank(
            #[trigger] word.drop_first()[k],
        ) by {
            assert(word.drop_first()[k] == word[k + 1]);
        }
        leading_word_stops_at_blank(word.drop_first(), rest);
        assert(leading_word(word + rest) =~= word);
    }
}

/// The first word of a text reaches from the first character that is no white space to the
/// next white space or the end; what follows it is all the rest.
pub proof fn first_word_is_what_blanks_enclose(
    blanks: Seq<char>,
    word: Seq<char>,
    rest: Seq<char>,
)
    requires
        forall|k: int| 0 <= k < blanks.len() ==> blank(#[trigger] blanks[k]),
        forall|k: int| 0 <= k < word.len() ==> !blank(#[trigger] word[k]),
        word.len() > 0 || rest.len() == 0,
        rest.len() > 0 ==> blank(rest[0]),
    ensures
        first_word(blanks + word + rest) == word,
        after_first_word(blanks + word + rest) == rest,
{
    assert(blanks + word + rest =~= blanks + (word + rest));
    trimming_removes_leading_blanks(blanks, word + rest);
    leading_word_stops_at_blank(word, rest);
    assert((word + rest).skip(word.len() as int) =~= rest);
}

proof fn there_is_a_piece<T>(s: Seq<T>, separator: T)
    ensures
        pieces(s, separator).len() > 0,
    decreases s.len(),
{
    if s.len() > 0 {
        there_is_a_piece(s.drop_last(), separator);
    }
}

/// A list without separators is a single piece.
pub proof fn unseparated_list_is_one_piece<T>(s: Seq<T>, separator: T)
    requires
        forall|k: int| 0 <= k < s.len() ==> #[trigger] s[k] != separator,
    ensures
        pieces(s, separator) == seq![s],
    decreases s.len(),
{
    if s.len() == 0 {
        assert(s =~= Seq::empty());
        assert(pieces(s, separator) =~= seq![s]);
    } else {
        assert(s[s.len() - 1] != separator);
        unseparated_list_is_one_piece(s.drop_last(), separator);
        assert(s.drop_last().push(s.last()) =~= s);
        assert(pieces(s, separator) =~= seq![s]);
    }
}

/// A separator parts a list: the pieces are those before it, followed by those after it.
pub proof fn separator_parts_a_list<T>(a: Seq<T>, separator: T, b: Seq<T>)
    ensures
        pieces(a.push(separator) + b, separator) == pieces(a, separator) + pieces(b, separator),
    decreases b.len(),
{
    let whole = a.push(separator) + b;
    if b.len() == 0 {
        assert(whole =~= a.push(separator));
        assert(whole.drop_last() =~= a);
        assert(pieces(whole, separator) =~= pieces(a, separator) + pieces(b, separator));
    } else {
        separator_parts_a_list(a, separator, b.drop_last());
        there_is_a_piece(b.drop_last(), separator);
        assert(whole.drop_last() =~= a.push(separator) + b.drop_last());
        assert(pieces(whole, separator) =~= pieces(a, separator) + pieces(b, separator));
    }
}

/// Of two texts, the one comes first that is a beginning of the other, or that has the
/// smaller character at the first place where they differ.
pub proof fn order_is_that_of_a_dictionary(a: Seq<char>, b: Seq<char>, k: int)
    requires
        0 <= k <= a.len(),
        k < b.len(),
        forall|j: int| 0 <= j < k ==> #[trigger] a[j] == b[j],
        k == a.len() || (a[k] as int) < (b[k] as int),
    ensures
        precedes(a, b),
        !precedes(b, a),
    decreases k,
{
    if k > 0 {
        assert(a[0] == b[0]);
        assert forall|j: int| 0 <= j < k - 1 implies #[trigger] a.drop_first()[j]
            == b.drop_first()[j] by {
            assert(a[j + 1] == b[j + 1]);
        }
        order_is_that_of_a_dictionary(a.drop_first(), b.drop_first(), k - 1);
    }
}

/// In an ordered list each text comes before all later ones.
pub proof fn ordered_list_is_ordered(list: Seq<Seq<char>>, i: int, j: int)
    requires
        ascending(list),
        0 <= i < j < list.len(),
    ensures
        precedes(list[i], list[j]),
        list[i] != list[j],
{
    order_is_total(list[i], list[j]);
}

/// Without immediate repetitions no two neighbours are equal.
pub proof fn no_repeats_remain(list: Seq<Seq<char>>, k: int)
    ensures
        0 <= k < without_repeats(list).len() - 1 ==> without_repeats(list)[k] != without_repeats(
            list,
        )[k + 1],
        list.len() > 0 ==> without_repeats(list).len() > 0 && without_repeats(list).last()
            == list.last(),
    decreases list.len(),
{
    if list.len() > 1 {
        no_repeats_remain(list.drop_last(), k);
        assert(list.drop_last().last() == list[list.len() - 2]);
    }
}

/// A list in which no two neighbours are equal stays as it is.
pub proof fn list_without_repeats_is_kept(list: Seq<Seq<char>>)
    requires
        forall|k: int| 0 <= k < list.len() - 1 ==> #[trigger] list[k] != list[k + 1],
    ensures
        without_repeats(list) == list,
    decreases list.len(),
{
    if list.len() > 1 {
        assert forall|k: int| 0 <= k < list.drop_last().len() - 1 implies
            #[trigger] list.drop_last()[k] != list.drop_last()[k + 1] by {
            assert(list[k] != list[k + 1]);
        }
        list_without_repeats_is_kept(list.drop_last());
        assert(list[list.len() - 2] != list[list.len() - 2 + 1]);
        assert(list.drop_last().push(list.last()) =~= list);
    }
}

/// Repeating an item in its place makes no difference.
pub proof fn repeating_makes_no_difference(a: Seq<Seq<char>>, item: Seq<char>, b: Seq<Seq<char>>)
    ensures
        without_repeats(a.push(item).push(item) + b) == without_repeats(a.push(item) + b),
    decreases b.len(),
{
    let twice = a.push(item).push(item) + b;
    let once = a.push(item) + b;
    if b.len() == 0 {
        assert(twice =~= a.push(item).push(item));
        assert(once =~= a.push(item));
        assert(twice.drop_last() =~= once);
    } else {
        repeating_makes_no_difference(a, item, b.drop_last());
        assert(twice.drop_last() =~= a.push(item).push(item) + b.drop_last());
        assert(once.drop_last() =~= a.push(item) + b.drop_last());
        assert(twice[twice.len() - 2] == once[once.len() - 2]);
    }
}

/// The part of a text before the first separator ends right there; a text without one is
/// taken whole.
pub proof fn part_ends_at_separator(part: Seq<char>, separator: char, rest: Seq<char>)
    requires
        forall|k: int| 0 <= k < part.len() ==> #[trigger] part[k] != separator,
    ensures
        up_to(part, separator) == part,
        up_to(part.push(separator) + rest, separator) == part,
    decreases part.len(),
{
    let whole = part.push(separator) + rest;
    if part.len() == 0 {
        assert(up_to(part, separator) =~= part);
        assert(up_to(whole, separator) =~= part);
    } else {
        assert forall|k: int| 0 <= k < part.drop_first().len() implies #[trigger] part.drop_first()[k]
            != separator by {
            assert(part.drop_first()[k] == part[k + 1]);
        }
        part_ends_at_separator(part.drop_first(), separator, rest);
        assert(whole[0] == part[0]);
        assert(part[0] != separator);
        assert(whole.drop_first() =~= part.drop_first().push(separator) + rest);
        assert(up_to(part, separator) =~= part);
        assert(up_to(whole, separator) =~= part);
    }
}

} // verus!
