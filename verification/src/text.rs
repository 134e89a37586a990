//! Text building blocks shared by the stages: decimal rendering, the naming
//! convention for temporaries, reserved words, string-literal escaping and the
//! lexicographic order on names.

use vstd::multiset::Multiset;
use vstd::prelude::*;
use vstd::string::*;

verus! {

/// `String::push` appends exactly the given character.
pub assume_specification[ std::string::String::push ](s: &mut std::string::String, c: char)
    ensures
        final(s)@ == old(s)@.push(c),
;

/// The character that stands for a decimal digit.
pub open spec fn digit_char(d: nat) -> char {
    if d == 0 {
        '0'
    } else if d == 1 {
        '1'
    } else if d == 2 {
        '2'
    } else if d == 3 {
        '3'
    } else if d == 4 {
        '4'
    } else if d == 5 {
        '5'
    } else if d == 6 {
        '6'
    } else if d == 7 {
        '7'
    } else if d == 8 {
        '8'
    } else {
        '9'
    }
}

/// The decimal numeral of a natural number, without leading zeros.
pub open spec fn decimal(n: nat) -> Seq<char>
    decreases n,
{
    if n < 10 {
        seq![digit_char(n)]
    } else {
        decimal(n / 10).push(digit_char(n % 10))
    }
}

/// The decimal numeral of an integer, with a leading minus sign when negative.
pub open spec fn signed_decimal(n: int) -> Seq<char> {
    if n < 0 {
        seq!['-'] + decimal((-n) as nat)
    } else {
        decimal(n as nat)
    }
}

/// The numeral has one character exactly for the numbers below ten.
pub proof fn lemma_decimal_len(n: nat)
    ensures
        decimal(n).len() >= 1,
        n < 10 <==> decimal(n).len() == 1,
    decreases n,
{
    if n >= 10 {
        lemma_decimal_len(n / 10);
    }
}

/// Different digits have different characters.
pub proof fn lemma_digit_injective(x: nat, y: nat)
    requires
        x < 10,
        y < 10,
        digit_char(x) == digit_char(y),
    ensures
        x == y,
{
}

/// Different numbers have different numerals.
pub proof fn lemma_decimal_injective(a: nat, b: nat)
    requires
        decimal(a) == decimal(b),
    ensures
        a == b,
    decreases a,
{
    lemma_decimal_len(a);
    lemma_decimal_len(b);
    if a < 10 {
        assert(b < 10);
        assert(decimal(a)[0] == digit_char(a));
        assert(decimal(b)[0] == digit_char(b));
        lemma_digit_injective(a, b);
    } else {
        assert(b >= 10);
        let da = decimal(a / 10).push(digit_char(a % 10));
        let db = decimal(b / 10).push(digit_char(b % 10));
        assert(decimal(a) == da);
        assert(decimal(b) == db);
        assert(da.last() == digit_char(a % 10));
        assert(db.last() == digit_char(b % 10));
        assert(da.drop_last() =~= decimal(a / 10));
        assert(db.drop_last() =~= decimal(b / 10));
        lemma_digit_injective(a % 10, b % 10);
        lemma_decimal_injective(a / 10, b / 10);
        assert(a == 10 * (a / 10) + a % 10);
        assert(b == 10 * (b / 10) + b % 10);
    }
}

pub open spec fn is_digit(c: char) -> bool {
    '0' <= c && c <= '9'
}

pub open spec fn all_digits(s: Seq<char>) -> bool {
    forall|i: int| 0 <= i < s.len() ==> is_digit(#[trigger] s[i])
}

/// A name made of the letter `t` followed by digits, possibly none.
pub open spec fn is_temp_prefix(name: Seq<char>) -> bool {
    name.len() >= 1 && name[0] == 't' && all_digits(name.subrange(1, name.len() as int))
}

/// A name made of the letter `t` followed by at least one digit.
pub open spec fn is_temp_name(name: Seq<char>) -> bool {
    name.len() >= 2 && is_temp_prefix(name)
}

/// One of the words `true`, `false`, `null`, `undefined`.
pub open spec fn is_reserved_word(name: Seq<char>) -> bool {
    name == "true"@ || name == "false"@ || name == "null"@ || name == "undefined"@
}

fn digit_to_char(d: usize) -> (c: char)
    requires
        d < 10,
    ensures
        c == digit_char(d as nat),
{
    if d == 0 {
        '0'
    } else if d == 1 {
        '1'
    } else if d == 2 {
        '2'
    } else if d == 3 {
        '3'
    } else if d == 4 {
        '4'
    } else if d == 5 {
        '5'
    } else if d == 6 {
        '6'
    } else if d == 7 {
        '7'
    } else if d == 8 {
        '8'
    } else {
        '9'
    }
}

/// Appends the decimal numeral of `n` to `out`.
pub fn push_decimal(out: &mut String, n: u128)
    ensures
        final(out)@ == old(out)@ + decimal(n as nat),
    decreases n,
{
    if n < 10 {
        let c: char = digit_to_char(n as usize);
        out.push(c);
        assert(out@ =~= old(out)@ + decimal(n as nat));
    } else {
        push_decimal(out, n / 10);
        let c: char = digit_to_char((n % 10) as usize);
        out.push(c);
        assert(out@ =~= old(out)@ + decimal(n as nat));
    }
}

/// Appends the decimal numeral of a signed integer to `out`.
pub fn push_signed_decimal(out: &mut String, n: i64)
    ensures
        final(out)@ == old(out)@ + signed_decimal(n as int),
{
    if n < 0 {
        out.push('-');
        let m: u128 = ((-(n + 1)) as u128) + 1;
        push_decimal(out, m);
        assert(out@ =~= old(out)@ + signed_decimal(n as int));
    } else {
        push_decimal(out, n as u128);
    }
}

/// The decimal numeral of `n` as a fresh string.
pub fn decimal_string(n: usize) -> (s: String)
    ensures
        s@ == decimal(n as nat),
{
    let mut s = String::new();
    push_decimal(&mut s, n as u128);
    assert(s@ =~= decimal(n as nat));
    s
}

/// Whether every character of `name` from position `from` on is a digit.
fn digits_from(name: &str, from: usize) -> (b: bool)
    requires
        from <= name@.len(),
    ensures
        b == all_digits(name@.subrange(from as int, name@.len() as int)),
{
    let n: usize = name.unicode_len();
    let mut i: usize = from;
    while i < n
        invariant
            from <= i <= n,
            n == name@.len(),
            forall|j: int| from <= j < i ==> is_digit(#[trigger] name@[j]),
        decreases n - i,
    {
        let c: char = name.get_char(i);
        if !('0' <= c && c <= '9') {
            assert(!is_digit(name@.subrange(from as int, name@.len() as int)[i - from]));
            return false;
        }
        i += 1;
    }
    true
}

/// Decides [`is_temp_prefix`].
pub fn temp_prefix(name: &str) -> (b: bool)
    ensures
        b == is_temp_prefix(name@),
{
    let n: usize = name.unicode_len();
    if n == 0 {
        return false;
    }
    if name.get_char(0) != 't' {
        return false;
    }
    digits_from(name, 1)
}

/// Decides [`is_temp_name`].
pub fn temp_name(name: &str) -> (b: bool)
    ensures
        b == is_temp_name(name@),
{
    let n: usize = name.unicode_len();
    n >= 2 && temp_prefix(name)
}

/// Whether two string slices hold the same characters.
pub fn same_text(a: &str, b: &str) -> (r: bool)
    ensures
        r == (a@ == b@),
{
    let n: usize = a.unicode_len();
    if n != b.unicode_len() {
        return false;
    }
    let mut i: usize = 0;
    while i < n
        invariant
            i <= n,
            n == a@.len(),
            n == b@.len(),
            forall|j: int| 0 <= j < i ==> a@[j] == b@[j],
        decreases n - i,
    {
        if a.get_char(i) != b.get_char(i) {
            return false;
        }
        i += 1;
    }
    assert(a@ =~= b@);
    true
}

/// Decides [`is_reserved_word`].
pub fn reserved_word(name: &str) -> (b: bool)
    ensures
        b == is_reserved_word(name@),
{
    same_text(name, "true") || same_text(name, "false") || same_text(name, "null") || same_text(
        name,
        "undefined",
    )
}

/// The text that stands for one character inside a string literal.
pub open spec fn escape_char(c: char) -> Seq<char> {
    if c == '\\' {
        seq!['\\', '\\']
    } else if c == '"' {
        seq!['\\', '"']
    } else if c == '\n' {
        seq!['\\', 'n']
    } else if c == '\r' {
        seq!['\\', 'r']
    } else if c == '\t' {
        seq!['\\', 't']
    } else if c == '\0' {
        seq!['\\', '0']
    } else {
        seq![c]
    }
}

/// The characters of `s` from position `i` on, escaped, after `acc`.
pub open spec fn escape_from(s: Seq<char>, i: nat, acc: Seq<char>) -> Seq<char>
    decreases s.len() - i,
{
    if i >= s.len() {
        acc
    } else {
        escape_from(s, i + 1, acc + escape_char(s[i as int]))
    }
}

/// Appends the escaped form of `s` to `out`.
pub fn push_escaped(out: &mut String, s: &str)
    ensures
        final(out)@ == escape_from(s@, 0, old(out)@),
{
    let n: usize = s.unicode_len();
    let mut i: usize = 0;
    while i < n
        invariant
            i <= n,
            n == s@.len(),
            escape_from(s@, i as nat, out@) == escape_from(s@, 0, old(out)@),
        decreases n - i,
    {
        let c: char = s.get_char(i);
        let ghost before = out@;
        if c == '\\' {
            out.push('\\');
            out.push('\\');
        } else if c == '"' {
            out.push('\\');
            out.push('"');
        } else if c == '\n' {
            out.push('\\');
            out.push('n');
        } else if c == '\r' {
            out.push('\\');
            out.push('r');
        } else if c == '\t' {
            out.push('\\');
            out.push('t');
        } else if c == '\0' {
            out.push('\\');
            out.push('0');
        } else {
            out.push(c);
        }
        assert(out@ =~= before + escape_char(c));
        i += 1;
    }
}

/// The models of a list of strings.
pub open spec fn texts(v: Seq<String>) -> Seq<Seq<char>> {
    Seq::new(v.len(), |i: int| v[i]@)
}

/// Whether `name` is among `list`.
pub fn contains_text(list: &Vec<String>, name: &String) -> (r: bool)
    ensures
        r == texts(list@).contains(name@),
{
    let mut i: usize = 0;
    while i < list.len()
        invariant
            i <= list.len(),
            forall|k: int| 0 <= k < i ==> texts(list@)[k] != name@,
        decreases list.len() - i,
    {
        if list[i] == *name {
            assert(texts(list@)[i as int] == name@);
            return true;
        }
        i += 1;
    }
    false
}

/// Lexicographic order on texts by character code; a proper prefix comes
/// first.
pub open spec fn text_lt(a: Seq<char>, b: Seq<char>, i: nat) -> bool
    decreases a.len() - i,
{
    if i >= b.len() {
        false
    } else if i >= a.len() {
        true
    } else if a[i as int] != b[i as int] {
        (a[i as int] as u32) < (b[i as int] as u32)
    } else {
        text_lt(a, b, i + 1)
    }
}

/// Decides [`text_lt`] from the first character on.
pub fn text_less(a: &str, b: &str) -> (r: bool)
    ensures
        r == text_lt(a@, b@, 0),
{
    let n: usize = a.unicode_len();
    let m: usize = b.unicode_len();
    let mut i: usize = 0;
    loop
        invariant
            n == a@.len(),
            m == b@.len(),
            i <= n,
            text_lt(a@, b@, i as nat) == text_lt(a@, b@, 0),
        decreases n - i,
    {
        if i >= m {
            return false;
        }
        if i >= n {
            return true;
        }
        let x: char = a.get_char(i);
        let y: char = b.get_char(i);
        if x != y {
            return (x as u32) < (y as u32);
        }
        i += 1;
    }
}

/// `x` put into the ascending list `sorted` before the first text from
/// position `i` on that is greater.
pub open spec fn insert_text(sorted: Seq<Seq<char>>, x: Seq<char>, i: nat) -> Seq<Seq<char>>
    decreases sorted.len() - i,
{
    if i >= sorted.len() {
        sorted.push(x)
    } else if text_lt(x, sorted[i as int], 0) {
        sorted.insert(i as int, x)
    } else {
        insert_text(sorted, x, i + 1)
    }
}

/// The texts from position `i` on, inserted one by one into `acc`: with an
/// empty `acc`, the list in ascending order.
pub open spec fn sort_texts(v: Seq<Seq<char>>, i: nat, acc: Seq<Seq<char>>) -> Seq<Seq<char>>
    decreases v.len() - i,
{
    if i >= v.len() {
        acc
    } else {
        sort_texts(v, i + 1, insert_text(acc, v[i as int], 0))
    }
}

/// No text is less than itself, and of two texts at most one is less than
/// the other.
pub proof fn lemma_text_lt_asym(a: Seq<char>, b: Seq<char>, i: nat)
    ensures
        !(text_lt(a, b, i) && text_lt(b, a, i)),
    decreases a.len() - i,
{
    if i < a.len() && i < b.len() && a[i as int] == b[i as int] {
        lemma_text_lt_asym(a, b, i + 1);
    }
}

/// Less than less is less.
pub proof fn lemma_text_lt_trans(a: Seq<char>, b: Seq<char>, c: Seq<char>, i: nat)
    requires
        text_lt(a, b, i),
        text_lt(b, c, i),
    ensures
        text_lt(a, c, i),
    decreases a.len() - i,
{
    if i < a.len() && a[i as int] == b[i as int] && b[i as int] == c[i as int] {
        lemma_text_lt_trans(a, b, c, i + 1);
    }
}

/// No text of the list is less than one before it.
pub open spec fn ascending(s: Seq<Seq<char>>) -> bool {
    forall|i: int, j: int| #![trigger s[i], s[j]] 0 <= i < j < s.len() ==> !text_lt(s[j], s[i], 0)
}

/// Inserting into an ascending list gives an ascending list that holds
/// the text inserted and, beside it, what the list held.
pub proof fn lemma_insert_text(sorted: Seq<Seq<char>>, x: Seq<char>, i: nat)
    requires
        ascending(sorted),
        i <= sorted.len(),
        forall|k: int| 0 <= k < i ==> !text_lt(x, #[trigger] sorted[k], 0),
    ensures
        ascending(insert_text(sorted, x, i)),
        insert_text(sorted, x, i).to_multiset() == sorted.to_multiset().insert(x),
    decreases sorted.len() - i,
{
    let r = insert_text(sorted, x, i);
    if i >= sorted.len() {
        vstd::seq_lib::to_multiset_build(sorted, x);
        assert forall|a: int, b: int| #![trigger r[a], r[b]] 0 <= a < b < r.len() implies !text_lt(
            r[b],
            r[a],
            0,
        ) by {
            if b < sorted.len() {
                assert(!text_lt(sorted[b], sorted[a], 0));
            }
        }
    } else if text_lt(x, sorted[i as int], 0) {
        vstd::seq_lib::to_multiset_insert(sorted, i as int, x);
        assert forall|a: int, b: int| #![trigger r[a], r[b]] 0 <= a < b < r.len() implies !text_lt(
            r[b],
            r[a],
            0,
        ) by {
            if b < i {
                assert(!text_lt(sorted[b], sorted[a], 0));
            } else if b == i {
                assert(r[b] == x && r[a] == sorted[a]);
            } else if a < i {
                assert(r[b] == sorted[b - 1] && r[a] == sorted[a]);
                assert(!text_lt(sorted[b - 1], sorted[a], 0));
            } else if a == i {
                assert(r[a] == x && r[b] == sorted[b - 1]);
                if text_lt(sorted[b - 1], x, 0) {
                    lemma_text_lt_trans(sorted[b - 1], x, sorted[i as int], 0);
                    if b - 1 > i {
                        assert(!text_lt(sorted[b - 1], sorted[i as int], 0));
                    } else {
                        lemma_text_lt_asym(x, sorted[i as int], 0);
                    }
                }
            } else {
                assert(r[b] == sorted[b - 1] && r[a] == sorted[a - 1]);
                assert(!text_lt(sorted[b - 1], sorted[a - 1], 0));
            }
        }
    } else {
        lemma_insert_text(sorted, x, i + 1);
    }
}

/// The sorted list ascends and holds the texts of the list, each as often
/// as the list holds it.
pub proof fn lemma_sort_texts(v: Seq<Seq<char>>, i: nat, acc: Seq<Seq<char>>)
    requires
        ascending(acc),
        i <= v.len(),
    ensures
        ascending(sort_texts(v, i, acc)),
        sort_texts(v, i, acc).to_multiset() == acc.to_multiset().add(
            v.subrange(i as int, v.len() as int).to_multiset(),
        ),
    decreases v.len() - i,
{
    let rest = v.subrange(i as int, v.len() as int);
    if i >= v.len() {
        assert(rest =~= Seq::empty());
        assert(rest.to_multiset() =~= Multiset::empty()) by {
            broadcast use vstd::seq_lib::group_to_multiset_ensures;

        }
        assert(acc.to_multiset().add(Multiset::empty()) =~= acc.to_multiset());
    } else {
        let next = insert_text(acc, v[i as int], 0);
        lemma_insert_text(acc, v[i as int], 0);
        lemma_sort_texts(v, i + 1, next);
        let tail = v.subrange(i as int + 1, v.len() as int);
        assert(rest =~= seq![v[i as int]] + tail);
        assert(rest.to_multiset() =~= tail.to_multiset().insert(v[i as int])) by {
            assert(rest.remove(0) =~= tail);
            vstd::seq_lib::to_multiset_insert(tail, 0, v[i as int]);
            assert(tail.insert(0, v[i as int]) =~= rest);
        }
        assert(acc.to_multiset().insert(v[i as int]).add(tail.to_multiset()) =~= acc.to_multiset().add(
            tail.to_multiset().insert(v[i as int]),
        ));
    }
}

/// Sorts a list of strings: the result ascends and holds the strings of
/// the list, each as often as the list holds it; strings that are equal
/// keep their order, as [`sort_texts`] says.
pub fn sorted_strings(v: &Vec<String>) -> (r: Vec<String>)
    ensures
        texts(r@) == sort_texts(texts(v@), 0, Seq::empty()),
        ascending(texts(r@)),
        texts(r@).to_multiset() == texts(v@).to_multiset(),
{
    proof {
        let t = texts(v@);
        lemma_sort_texts(t, 0, Seq::empty());
        assert(t.subrange(0, t.len() as int) =~= t);
        assert(Seq::<Seq<char>>::empty().to_multiset() =~= Multiset::empty()) by {
            broadcast use vstd::seq_lib::group_to_multiset_ensures;

        }
        assert(Multiset::<Seq<char>>::empty().add(t.to_multiset()) =~= t.to_multiset());
    }
    let mut r: Vec<String> = Vec::new();
    assert(texts(r@) =~= Seq::empty());
    let mut i: usize = 0;
    while i < v.len()
        invariant
            i <= v.len(),
            sort_texts(texts(v@), i as nat, texts(r@)) == sort_texts(texts(v@), 0, Seq::empty()),
        decreases v.len() - i,
    {
        let x = v[i].clone();
        let ghost before = texts(r@);
        let mut j: usize = 0;
        while j < r.len() && !text_less(x.as_str(), r[j].as_str())
            invariant
                j <= r.len(),
                before == texts(r@),
                insert_text(before, x@, j as nat) == insert_text(before, x@, 0),
            decreases r.len() - j,
        {
            j += 1;
        }
        r.insert(j, x);
        proof {
            if j < before.len() {
                assert(texts(r@) =~= before.insert(j as int, x@));
            } else {
                assert(texts(r@) =~= before.push(x@));
            }
            assert(texts(v@)[i as int] == x@);
        }
        i += 1;
    }
    r
}

/// The texts of `items` from position `i` on, each after `sep` except the
/// first of the list, appended to `acc`.
pub open spec fn join_from(items: Seq<Seq<char>>, sep: Seq<char>, i: nat, acc: Seq<char>) -> Seq<char>
    decreases items.len() - i,
{
    if i >= items.len() {
        acc
    } else {
        join_from(
            items,
            sep,
            i + 1,
            if i == 0 {
                acc + items[i as int]
            } else {
                acc + sep + items[i as int]
            },
        )
    }
}

/// The items separated by `sep`.
pub open spec fn join(items: Seq<Seq<char>>, sep: Seq<char>) -> Seq<char> {
    join_from(items, sep, 0, Seq::empty())
}

/// Appends the items of `list`, separated by `sep`, to `out`.
pub fn push_joined(out: &mut String, list: &Vec<String>, sep: &str)
    ensures
        final(out)@ == join_from(texts(list@), sep@, 0, old(out)@),
{
    let mut i: usize = 0;
    while i < list.len()
        invariant
            i <= list.len(),
            join_from(texts(list@), sep@, i as nat, out@) == join_from(
                texts(list@),
                sep@,
                0,
                old(out)@,
            ),
        decreases list.len() - i,
    {
        if i > 0 {
            out.append(sep);
        }
        out.append(list[i].as_str());
        i += 1;
    }
}

} // verus!
