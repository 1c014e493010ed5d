//! What the parts of texts are: numbers, pieces, and texts without white space or capitals.
use vstd::prelude::*;
use crate::metadata::ValueModel;
use crate::render::{joined, text_of_entries, text_of_items, text_of_value};
use crate::text::{
    decimal, digit_char, digit_value, digits_value, first_index, integer_text, is_space,
    lemma_first_index, lower_text, natural_text, occurs_in, split, trim_back, trim_front, trimmed,
};

verus! {

pub(crate) proof fn lemma_decimal(n: nat)
    ensures
        decimal(n).len() > 0,
        digits_value(decimal(n)) == Some(n),
        forall|i: int| 0 <= i < decimal(n).len() ==> '0' <= (#[trigger] decimal(n)[i]) <= '9',
    decreases n,
{
    reveal_with_fuel(digits_value, 2);
    if n < 10 {
        let s = seq![digit_char(n)];
        assert(s.drop_last() =~= Seq::<char>::empty());
        assert(digit_value(digit_char(n)) == Some(n));
    } else {
        lemma_decimal(n / 10);
        let s = decimal(n);
        assert(s.drop_last() =~= decimal(n / 10));
        assert(digit_value(digit_char(n % 10)) == Some(n % 10));
        assert forall|i: int| 0 <= i < s.len() implies '0' <= (#[trigger] s[i]) <= '9' by {
            if i < s.len() - 1 {
                assert(s[i] == decimal(n / 10)[i]);
            }
        }
    }
}

/// A number is read back from its decimal digits, with a plus sign or none, and negative with a
/// minus sign.
pub proof fn law_decimal(n: nat)
    ensures
        natural_text(decimal(n)) == Some(n),
        natural_text(seq!['+'] + decimal(n)) == Some(n),
        integer_text(decimal(n)) == Some(n as int),
        integer_text(seq!['+'] + decimal(n)) == Some(n as int),
        integer_text(seq!['-'] + decimal(n)) == Some(-(n as int)),
        natural_text(seq!['-'] + decimal(n)) is None,
        forall|i: int| 0 <= i < decimal(n).len() ==> '0' <= (#[trigger] decimal(n)[i]) <= '9',
{
    lemma_decimal(n);
    let s = decimal(n);
    assert('0' <= s[0] <= '9');
    assert((seq!['+'] + s).skip(1) =~= s);
    assert((seq!['-'] + s).skip(1) =~= s);
    let t = seq!['-'] + s;
    assert(t[0] == '-');
    lemma_no_digit(t, 0);
}

proof fn lemma_no_digit(s: Seq<char>, i: int)
    requires
        0 <= i < s.len(),
        !('0' <= s[i] <= '9'),
    ensures
        digits_value(s) is None,
    decreases s.len(),
{
    if i < s.len() - 1 {
        lemma_no_digit(s.drop_last(), i);
    }
}

/// A text with a character that is no digit, other than a sign in front, is no number, nor is an
/// empty text.
pub proof fn law_no_number(s: Seq<char>, i: int)
    requires
        s.len() == 0 || (0 <= i < s.len() && !('0' <= s[i] <= '9') && (i > 0 || (s[0] != '+' && s[0]
            != '-'))),
    ensures
        natural_text(s) is None,
        integer_text(s) is None,
{
    if s.len() > 0 {
        lemma_no_digit(s, i);
        if i > 0 {
            lemma_no_digit(s.skip(1), i - 1);
        }
    }
}

proof fn lemma_trim_front(s: Seq<char>)
    ensures
        ({
            let n = s.len() - trim_front(s).len();
            &&& 0 <= n <= s.len()
            &&& trim_front(s) == s.skip(n)
            &&& forall|i: int| 0 <= i < n ==> is_space(#[trigger] s[i])
            &&& n < s.len() ==> !is_space(s[n])
        }),
    decreases s.len(),
{
    if s.len() > 0 && is_space(s[0]) {
        let t = s.drop_first();
        lemma_trim_front(t);
        let n = s.len() - trim_front(s).len();
        assert(t.skip(n - 1) =~= s.skip(n));
        assert forall|i: int| 0 <= i < n implies is_space(#[trigger] s[i]) by {
            if i > 0 {
                assert(t[i - 1] == s[i]);
            }
        }
    } else {
        assert(s.skip(0) =~= s);
    }
}

proof fn lemma_trim_back(s: Seq<char>)
    ensures
        ({
            let n = trim_back(s).len() as int;
            &&& n <= s.len()
            &&& trim_back(s) == s.take(n)
            &&& forall|i: int| n <= i < s.len() ==> is_space(#[trigger] s[i])
            &&& n > 0 ==> !is_space(s[n - 1])
        }),
    decreases s.len(),
{
    if s.len() > 0 && is_space(s.last()) {
        let t = s.drop_last();
        lemma_trim_back(t);
        let n = trim_back(s).len() as int;
        assert(t.take(n) =~= s.take(n));
        assert forall|i: int| n <= i < s.len() implies is_space(#[trigger] s[i]) by {
            if i < s.len() - 1 {
                assert(t[i] == s[i]);
            }
        }
    } else {
        assert(s.take(s.len() as int) =~= s);
    }
}

/// A trimmed text is the text but for white space before and behind it, and neither starts nor
/// ends in white space.
pub proof fn law_trimmed(s: Seq<char>)
    ensures
        exists|a: int, b: int|
            0 <= a <= b <= s.len() && trimmed(s) == #[trigger] s.subrange(a, b) && forall|i: int|
                (0 <= i < a || b <= i < s.len()) ==> is_space(#[trigger] s[i]),
        trimmed(s).len() > 0 ==> !is_space(trimmed(s)[0]) && !is_space(trimmed(s).last()),
        is_space(' ') && is_space('\t') && is_space('\n') && is_space('\r'),
        forall|c: char| '!' <= c <= '~' ==> !#[trigger] is_space(c),
{
    lemma_trim_front(s);
    let t = trim_front(s);
    lemma_trim_back(t);
    let a = s.len() - t.len();
    let b = a + trimmed(s).len();
    assert(trimmed(s) =~= s.subrange(a, b));
    assert forall|i: int| (0 <= i < a || b <= i < s.len()) implies is_space(#[trigger] s[i]) by {
        if i >= b {
            assert(t[i - a] == s[i]);
        }
    }
    if trimmed(s).len() > 0 {
        assert(trimmed(s)[0] == t[0]);
        assert(t[0] == s[a]);
    }
}

/// A text in lower case: a capital of the English alphabet stands thirty-two below its small letter,
/// and all else is unchanged.
pub proof fn law_lower_text(s: Seq<char>)
    ensures
        lower_text(s).len() == s.len(),
        forall|i: int|
            0 <= i < s.len() ==> if 'A' <= s[i] <= 'Z' {
                (#[trigger] lower_text(s)[i]) as u32 == s[i] as u32 + 32
            } else {
                lower_text(s)[i] == s[i]
            },
        lower_text(lower_text(s)) == lower_text(s),
{
    assert forall|i: int| 0 <= i < s.len() implies if 'A' <= s[i] <= 'Z' {
        (#[trigger] lower_text(s)[i]) as u32 == s[i] as u32 + 32
    } else {
        lower_text(s)[i] == s[i]
    } by {}
    assert(lower_text(lower_text(s)) =~= lower_text(s));
}

/// The pieces of a text: what stands before the first separator, and the pieces of what stands
/// behind it; a text without a separator is its own only piece.
pub proof fn law_split(piece: Seq<char>, sep: char, rest: Seq<char>)
    requires
        !piece.contains(sep),
    ensures
        split(piece, sep) == seq![piece],
        split(piece + seq![sep] + rest, sep) == seq![piece] + split(rest, sep),
{
    let s = piece + seq![sep] + rest;
    lemma_first_index(piece, sep);
    lemma_first_index(s, sep);
    let n = piece.len() as int;
    assert(s[n] == sep);
    let i = first_index(s, sep) as int;
    if i < n {
        assert(s[i] == piece[i]);
    }
    assert(s.take(n) =~= piece);
    assert(s.skip(n + 1) =~= rest);
}

/// A text occurs in another where that is the text with something before and behind it.
pub proof fn law_occurs(needle: Seq<char>, hay: Seq<char>)
    ensures
        occurs_in(needle, hay) <==> exists|a: Seq<char>, b: Seq<char>|
            #[trigger] (a + needle + b) == hay,
{
    if occurs_in(needle, hay) {
        let i = choose|i: int|
            0 <= i <= hay.len() - needle.len() && #[trigger] hay.subrange(i, i + needle.len())
                == needle;
        assert(hay.take(i) + needle + hay.skip(i + needle.len()) =~= hay);
    }
    if exists|a: Seq<char>, b: Seq<char>| #[trigger] (a + needle + b) == hay {
        let (a, b) = choose|a: Seq<char>, b: Seq<char>| #[trigger] (a + needle + b) == hay;
        let n = a.len() as int;
        assert(hay.subrange(n, n + needle.len()) =~= needle);
    }
}

/// Texts are joined with a comma between each two.
pub proof fn law_joined(texts: Seq<Seq<char>>, text: Seq<char>)
    ensures
        joined(seq![text], 1) == text,
        texts.len() > 0 ==> joined(texts.push(text), texts.len() + 1) == joined(texts, texts.len())
            + seq![','] + text,
{
    reveal_strlit(",");
    assert(","@ =~= seq![',']);
    if texts.len() > 0 {
        lemma_joined_before(texts, text, texts.len());
    }
}

proof fn lemma_joined_before(texts: Seq<Seq<char>>, text: Seq<char>, n: nat)
    requires
        n <= texts.len(),
    ensures
        joined(texts.push(text), n) == joined(texts, n),
    decreases n,
{
    if n > 1 {
        lemma_joined_before(texts, text, (n - 1) as nat);
    }
}

/// How values of metadata are shown: a text as it is, an integer in decimal digits, a double as the
/// text that it is given, and a list or a map between its brackets.
pub proof fn law_shown_values(
    s: Seq<char>,
    i: i64,
    bits: u64,
    b: bool,
    key: Seq<char>,
    v: ValueModel,
    texts: Seq<Seq<char>>,
    from: int,
)
    ensures
        text_of_value(ValueModel::Text(s), texts, from) == s,
        text_of_value(ValueModel::Integer(i), texts, from) == if i < 0 {
            seq!['-'] + decimal((-i) as nat)
        } else {
            decimal(i as nat)
        },
        text_of_value(ValueModel::Float(bits), texts, from) == texts[from],
        text_of_value(ValueModel::Boolean(b), texts, from) == if b {
            "true"@
        } else {
            "false"@
        },
        text_of_value(ValueModel::Null, texts, from) == "null"@,
        text_of_value(ValueModel::List(seq![v]), texts, from) == seq!['['] + text_of_value(
            v,
            texts,
            from,
        ) + seq![']'],
        text_of_value(ValueModel::Object(seq![(key, v)]), texts, from) == seq!['{'] + key + seq![
            ':',
            ' ',
        ] + text_of_value(v, texts, from) + seq!['}'],
{
    reveal_strlit("-");
    reveal_strlit("[");
    reveal_strlit("]");
    reveal_strlit("{");
    reveal_strlit("}");
    reveal_strlit(": ");
    assert("-"@ =~= seq!['-']);
    assert("["@ =~= seq!['['] && "]"@ =~= seq![']']);
    assert("{"@ =~= seq!['{'] && "}"@ =~= seq!['}'] && ": "@ =~= seq![':', ' ']);
    let items = seq![v];
    let pairs = seq![(key, v)];
    reveal_with_fuel(text_of_items, 2);
    reveal_with_fuel(text_of_entries, 2);
    assert(text_of_items(items, texts, from, 0) =~= Seq::<char>::empty());
    assert(text_of_entries(pairs, texts, from, 0, ": "@) =~= Seq::<char>::empty());
    assert(text_of_items(items, texts, from, 1) =~= text_of_value(v, texts, from));
    assert(text_of_entries(pairs, texts, from, 1, ": "@) =~= key + ": "@ + text_of_value(
        v,
        texts,
        from,
    ));
    assert("{"@ + (key + ": "@ + text_of_value(v, texts, from)) + "}"@ =~= seq!['{'] + key + seq![
        ':',
        ' ',
    ] + text_of_value(v, texts, from) + seq!['}']);
}

} // verus!
