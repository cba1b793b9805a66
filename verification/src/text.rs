//! Pieces of text: comparing, writing numbers, joining.

use vstd::prelude::*;

verus! {

broadcast use vstd::string::group_string_axioms;

/// The character of the decimal digit `d`.
pub open spec fn digit(d: nat) -> char {
    ('0' as nat + d) as char
}

/// `n` in decimal, without leading zeros.
pub open spec fn decimal(n: nat) -> Seq<char>
    decreases n,
{
    if n < 10 {
        seq![digit(n)]
    } else {
        decimal(n / 10).push(digit(n % 10))
    }
}

/// The items one after the other, with `separator` between any two neighbours.
pub open spec fn joined(items: Seq<Seq<char>>, separator: Seq<char>) -> Seq<char>
    decreases items.len(),
{
    if items.len() == 0 {
        Seq::empty()
    } else if items.len() == 1 {
        items[0]
    } else {
        joined(items.drop_last(), separator) + separator + items.last()
    }
}

/// The items one after the other.
pub open spec fn concatenated(items: Seq<Seq<char>>) -> Seq<char>
    decreases items.len(),
{
    if items.len() == 0 {
        Seq::empty()
    } else {
        concatenated(items.drop_last()) + items.last()
    }
}

/// Whether `names` holds a string with the characters `name`.
pub open spec fn listed(names: Seq<&'static str>, name: Seq<char>) -> bool {
    exists|i: int| 0 <= i < names.len() && #[trigger] names[i]@ == name
}

/// Whether the two strings have the same characters.
pub fn same_str(a: &str, b: &str) -> (same: bool)
    ensures
        same == (a@ == b@),
{
    let x = a.as_bytes();
    let y = b.as_bytes();
    if x.len() != y.len() {
        return false;
    }
    let mut i: usize = 0;
    while i < x.len()
        invariant
            x@ == vstd::utf8::encode_utf8(a@),
            y@ == vstd::utf8::encode_utf8(b@),
            x@.len() == y@.len(),
            i <= x@.len(),
            forall|j: int| 0 <= j < i ==> x@[j] == y@[j],
        decreases x@.len() - i,
    {
        if x[i] != y[i] {
            return false;
        }
        i += 1;
    }
    proof {
        assert(x@ =~= y@);
        vstd::utf8::encode_utf8_decode_utf8(a@);
        vstd::utf8::encode_utf8_decode_utf8(b@);
    }
    true
}

/// Whether `names` holds a string with the characters of `name`.
pub fn is_listed(names: &Vec<&'static str>, name: &str) -> (found: bool)
    ensures
        found == listed(names@, name@),
        found == (exists|i: int| 0 <= i < names@.len() && #[trigger] names@[i]@ == name@),
{
    let mut i: usize = 0;
    while i < names.len()
        invariant
            i <= names@.len(),
            forall|j: int| 0 <= j < i ==> (#[trigger] names@[j])@ != name@,
        decreases names@.len() - i,
    {
        if same_str(names[i], name) {
            return true;
        }
        i += 1;
    }
    false
}

/// `String::push` appends one character.
pub assume_specification[ String::push ](text: &mut String, c: char)
    ensures
        final(text)@ == old(text)@.push(c),
;

/// Appends `n` in decimal to `out`.
pub fn push_decimal(out: &mut String, n: u128)
    ensures
        final(out)@ == old(out)@ + decimal(n as nat),
    decreases n,
{
    let ghost before = out@;
    if n >= 10 {
        push_decimal(out, n / 10);
    }
    out.push(('0' as u8 + (n % 10) as u8) as char);
    assert(out@ =~= before + decimal(n as nat));
}

/// The number that is read from some decimal digits, the most significant one first.
pub open spec fn number(digits: Seq<char>) -> int
    decreases digits.len(),
{
    if digits.len() == 0 {
        0
    } else {
        number(digits.drop_last()) * 10 + (digits.last() as int - '0' as int)
    }
}

/// Whether `digits` is how `n` is written: nothing but decimal digits, at least one, no zero too
/// many in front, and read as a number they give `n`.
pub open spec fn numeral(digits: Seq<char>, n: nat) -> bool {
    &&& digits.len() > 0
    &&& forall|i: int| 0 <= i < digits.len() ==> '0' <= #[trigger] digits[i] <= '9'
    &&& digits.len() > 1 ==> digits[0] != '0'
    &&& number(digits) == n
}

/// A number that is written and read back is the same number.
pub proof fn law_decimal_reads_back(n: nat)
    ensures
        numeral(decimal(n), n),
    decreases n,
{
    let digits = decimal(n);
    if n < 10 {
        assert(digits.drop_last() =~= Seq::<char>::empty());
        assert(number(digits.drop_last()) == 0);
    } else {
        let rest = decimal(n / 10);
        law_decimal_reads_back(n / 10);
        assert(digits.drop_last() =~= rest);
        assert forall|i: int| 0 <= i < digits.len() implies '0' <= #[trigger] digits[i] <= '9' by {
            if i < rest.len() {
                assert(digits[i] == rest[i]);
            }
        }
        assert(digits[0] == rest[0]);
        if rest.len() == 1 {
            assert(rest.drop_last() =~= Seq::<char>::empty());
            assert(number(rest.drop_last()) == 0);
            assert(rest[0] as int - '0' as int == n / 10);
        }
    }
}

/// Digits give no negative number; and at least one if the first of them is not zero, at least
/// ten if there are more.
proof fn lemma_number_is_large(digits: Seq<char>)
    requires
        forall|i: int| 0 <= i < digits.len() ==> '0' <= #[trigger] digits[i] <= '9',
    ensures
        number(digits) >= 0,
        digits.len() > 0 && digits[0] != '0' ==> number(digits) >= 1,
        digits.len() > 1 && digits[0] != '0' ==> number(digits) >= 10,
    decreases digits.len(),
{
    if digits.len() > 0 {
        let rest = digits.drop_last();
        assert forall|i: int| 0 <= i < rest.len() implies '0' <= #[trigger] rest[i] <= '9' by {
            assert(rest[i] == digits[i]);
        }
        lemma_number_is_large(rest);
        if rest.len() > 0 {
            assert(rest[0] == digits[0]);
        }
        assert('0' <= digits[digits.len() - 1] <= '9');
    }
}

/// A number is written in one way only.
pub proof fn law_numerals_are_unique(a: Seq<char>, b: Seq<char>, n: nat)
    requires
        numeral(a, n),
        numeral(b, n),
    ensures
        a == b,
    decreases a.len(),
{
    lemma_number_is_large(a);
    lemma_number_is_large(b);
    let x = a.drop_last();
    let y = b.drop_last();
    assert('0' <= a[a.len() - 1] <= '9');
    assert('0' <= b[b.len() - 1] <= '9');
    assert forall|i: int| 0 <= i < x.len() implies '0' <= #[trigger] x[i] <= '9' by {
        assert(x[i] == a[i]);
    }
    assert forall|i: int| 0 <= i < y.len() implies '0' <= #[trigger] y[i] <= '9' by {
        assert(y[i] == b[i]);
    }
    lemma_number_is_large(x);
    lemma_number_is_large(y);
    assert(number(x) == number(y));
    if x.len() > 0 && y.len() > 0 {
        assert(x[0] == a[0] && y[0] == b[0]);
        law_numerals_are_unique(x, y, number(x) as nat);
    } else if x.len() > 0 {
        assert(x[0] == a[0]);
        assert(number(y) == 0);
    } else if y.len() > 0 {
        assert(y[0] == b[0]);
        assert(number(x) == 0);
    }
    assert(a =~= x.push(a.last()));
    assert(b =~= y.push(b.last()));
}

/// The items and the separators between them, in the order in which they are written.
pub open spec fn interleaved(items: Seq<Seq<char>>, separator: Seq<char>) -> Seq<Seq<char>> {
    Seq::new(
        if items.len() == 0 {
            0
        } else {
            (2 * items.len() - 1) as nat
        },
        |k: int| if k % 2 == 0 {
            items[k / 2]
        } else {
            separator
        },
    )
}

/// Joining writes all items, each once and in their order, and a separator between any two
/// neighbours.
pub proof fn law_joining_writes_all(items: Seq<Seq<char>>, separator: Seq<char>)
    ensures
        joined(items, separator) == interleaved(items, separator).flatten(),
    decreases items.len(),
{
    let all = interleaved(items, separator);
    if items.len() == 0 {
    } else if items.len() == 1 {
        assert(all =~= seq![items[0]]);
        all.lemma_flatten_one_element();
    } else {
        let rest = items.drop_last();
        law_joining_writes_all(rest, separator);
        let before = interleaved(rest, separator);
        assert forall|k: int| 0 <= k < all.len() implies all[k] == #[trigger] before.push(
            separator,
        ).push(items.last())[k] by {
            if k < before.len() {
                assert(rest[k / 2] == items[k / 2]);
            }
        }
        assert(all =~= before.push(separator).push(items.last()));
        before.push(separator).lemma_flatten_push(items.last());
        before.lemma_flatten_push(separator);
    }
}

/// Writing one item after the other writes all items, each once and in their order.
pub proof fn law_concatenating_writes_all(items: Seq<Seq<char>>)
    ensures
        concatenated(items) == items.flatten(),
    decreases items.len(),
{
    if items.len() > 0 {
        law_concatenating_writes_all(items.drop_last());
        items.drop_last().lemma_flatten_push(items.last());
        assert(items.drop_last().push(items.last()) =~= items);
    }
}

/// A name is listed if it is one of the names, character by character, and only then.
pub proof fn law_listed_names_are_equal(names: Seq<&'static str>, name: Seq<char>)
    ensures
        listed(names, name) <==> exists|i: int| 0 <= i < names.len() && (#[trigger] names[i])@ == name,
{
}

} // verus!
