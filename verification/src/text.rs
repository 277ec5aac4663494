//! How numbers and lists are written in a log line.
//!
//! The spec functions say what the text is; the functions beside them append
//! exactly that text to a line.

use vstd::prelude::*;

verus! {

/// The character for a digit below sixteen: `0` to `9`, then `a` to `f`.
pub open spec fn digit_char(digit: int) -> char {
    if digit < 10 {
        ('0' as int + digit) as char
    } else {
        ('a' as int + digit - 10) as char
    }
}

/// A byte as two hexadecimal digits, lower case.
pub open spec fn hex2(byte: u8) -> Seq<char> {
    seq![digit_char(byte as int / 16), digit_char(byte as int % 16)]
}

/// A number in decimal, without leading zeros.
pub open spec fn decimal(value: nat) -> Seq<char>
    decreases value,
{
    if value < 10 {
        seq![digit_char(value as int)]
    } else {
        decimal(value / 10).push(digit_char((value % 10) as int))
    }
}

/// `true` or `false`.
pub open spec fn bool_text(flag: bool) -> Seq<char> {
    if flag {
        "true"@
    } else {
        "false"@
    }
}

/// The items one after another with `separator` between neighbours.
pub open spec fn join(items: Seq<Seq<char>>, separator: Seq<char>) -> Seq<char>
    decreases items.len(),
{
    if items.len() == 0 {
        Seq::empty()
    } else if items.len() == 1 {
        items[0]
    } else {
        join(items.drop_last(), separator) + separator + items.last()
    }
}

/// The decimal text of each byte.
pub open spec fn byte_texts(bytes: Seq<u8>) -> Seq<Seq<char>> {
    Seq::new(bytes.len(), |i: int| decimal(bytes[i] as nat))
}

/// A list of bytes: `[]`, `[7]`, `[27, 91]`.
pub open spec fn byte_list(bytes: Seq<u8>) -> Seq<char> {
    "["@ + join(byte_texts(bytes), ", "@) + "]"@
}

/// The list text of each byte string.
pub open spec fn byte_list_texts(lists: Seq<Seq<u8>>) -> Seq<Seq<char>> {
    Seq::new(lists.len(), |i: int| byte_list(lists[i]))
}

/// A list of byte strings: `[[48], [116, 105]]`.
pub open spec fn byte_lists(lists: Seq<Seq<u8>>) -> Seq<char> {
    "["@ + join(byte_list_texts(lists), ", "@) + "]"@
}

/// The decimal text of each value of a parameter group.
pub open spec fn value_texts(group: Seq<u64>) -> Seq<Seq<char>> {
    Seq::new(group.len(), |i: int| decimal(group[i] as nat))
}

/// A parameter with its sub-parameters, colons between them: `38:2:255`.
pub open spec fn group_text(group: Seq<u64>) -> Seq<char> {
    join(value_texts(group), ":"@)
}

/// The text of each parameter group.
pub open spec fn group_texts(groups: Seq<Seq<u64>>) -> Seq<Seq<char>> {
    Seq::new(groups.len(), |i: int| group_text(groups[i]))
}

/// A parameter list, semicolons between the groups: `[1;31]`.
pub open spec fn params_text(groups: Seq<Seq<u64>>) -> Seq<char> {
    "["@ + join(group_texts(groups), ";"@) + "]"@
}

/// The text that `{:?}` gives for a character: the character between single
/// quotes, written as an escape where the standard library's `Debug` for
/// `char` escapes it.
pub uninterp spec fn char_debug_text(c: char) -> Seq<char>;

/// Joining one item more: the separator comes first unless it is the first.
pub proof fn lemma_join_next(items: Seq<Seq<char>>, separator: Seq<char>, count: int)
    requires
        0 <= count < items.len(),
    ensures
        join(items.take(count + 1), separator) == if count == 0 {
            items[count]
        } else {
            join(items.take(count), separator) + separator + items[count]
        },
{
    let upto = items.take(count + 1);
    assert(upto.last() == items[count]);
    assert(upto.drop_last() =~= items.take(count));
    if count == 0 {
        assert(upto[0] == items[0]);
    }
}

fn digit_text(digit: u8) -> (text: &'static str)
    requires
        digit < 16,
    ensures
        text@ == seq![digit_char(digit as int)],
{
    proof {
        reveal_strlit("0");
        reveal_strlit("1");
        reveal_strlit("2");
        reveal_strlit("3");
        reveal_strlit("4");
        reveal_strlit("5");
        reveal_strlit("6");
        reveal_strlit("7");
        reveal_strlit("8");
        reveal_strlit("9");
        reveal_strlit("a");
        reveal_strlit("b");
        reveal_strlit("c");
        reveal_strlit("d");
        reveal_strlit("e");
        reveal_strlit("f");
    }
    let text = match digit {
        0 => "0",
        1 => "1",
        2 => "2",
        3 => "3",
        4 => "4",
        5 => "5",
        6 => "6",
        7 => "7",
        8 => "8",
        9 => "9",
        10 => "a",
        11 => "b",
        12 => "c",
        13 => "d",
        14 => "e",
        _ => "f",
    };
    assert(text@ =~= seq![digit_char(digit as int)]);
    text
}

/// The standard library's `Debug` formatting of a character, which depends
/// on the character alone.
#[verifier::external_body]
fn char_debug(c: char) -> (text: String)
    ensures
        text@ == char_debug_text(c),
{
    format!("{:?}", c)
}

/// Appends a character as `{:?}` writes it.
pub fn push_char_debug(line: &mut String, c: char)
    ensures
        final(line)@ == old(line)@ + char_debug_text(c),
{
    let text = char_debug(c);
    line.append(text.as_str());
}

/// Appends a byte as two hexadecimal digits.
pub fn push_hex2(line: &mut String, byte: u8)
    ensures
        final(line)@ == old(line)@ + hex2(byte),
{
    line.append(digit_text(byte / 16));
    line.append(digit_text(byte % 16));
    assert(line@ =~= old(line)@ + hex2(byte));
}

/// Appends a number in decimal.
pub fn push_decimal(line: &mut String, value: u64)
    ensures
        final(line)@ == old(line)@ + decimal(value as nat),
    decreases value,
{
    if value >= 10 {
        push_decimal(line, value / 10);
    }
    line.append(digit_text((value % 10) as u8));
    assert(line@ =~= old(line)@ + decimal(value as nat));
}

/// Appends `true` or `false`.
pub fn push_bool(line: &mut String, flag: bool)
    ensures
        final(line)@ == old(line)@ + bool_text(flag),
{
    if flag {
        line.append("true");
    } else {
        line.append("false");
    }
}

/// Appends a list of bytes.
pub fn push_byte_list(line: &mut String, bytes: &[u8])
    ensures
        final(line)@ == old(line)@ + byte_list(bytes@),
{
    let ghost items = byte_texts(bytes@);
    line.append("[");
    let ghost start = line@;
    assert(items.take(0) =~= Seq::<Seq<char>>::empty());
    let mut i: usize = 0;
    while i < bytes.len()
        invariant
            i <= bytes.len(),
            items == byte_texts(bytes@),
            line@ == start + join(items.take(i as int), ", "@),
        decreases bytes.len() - i,
    {
        if i > 0 {
            line.append(", ");
        }
        push_decimal(line, bytes[i] as u64);
        proof {
            lemma_join_next(items, ", "@, i as int);
            assert(line@ =~= start + join(items.take(i + 1), ", "@));
        }
        i += 1;
    }
    line.append("]");
    assert(items.take(bytes.len() as int) =~= items);
    assert(line@ =~= old(line)@ + byte_list(bytes@));
}

/// Appends a list of byte strings.
pub fn push_byte_lists(line: &mut String, lists: &Vec<Vec<u8>>)
    ensures
        final(line)@ == old(line)@ + byte_lists(lists.deep_view()),
{
    let ghost items = byte_list_texts(lists.deep_view());
    line.append("[");
    let ghost start = line@;
    assert(items.take(0) =~= Seq::<Seq<char>>::empty());
    let mut i: usize = 0;
    while i < lists.len()
        invariant
            i <= lists.len(),
            items == byte_list_texts(lists.deep_view()),
            line@ == start + join(items.take(i as int), ", "@),
        decreases lists.len() - i,
    {
        if i > 0 {
            line.append(", ");
        }
        push_byte_list(line, lists[i].as_slice());
        proof {
            assert(lists.deep_view()[i as int] == lists[i as int]@);
            lemma_join_next(items, ", "@, i as int);
            assert(line@ =~= start + join(items.take(i + 1), ", "@));
        }
        i += 1;
    }
    line.append("]");
    assert(items.take(lists.len() as int) =~= items);
    assert(line@ =~= old(line)@ + byte_lists(lists.deep_view()));
}

/// Appends one parameter with its sub-parameters.
pub fn push_group(line: &mut String, group: &Vec<u64>)
    ensures
        final(line)@ == old(line)@ + group_text(group@),
{
    let ghost items = value_texts(group@);
    let ghost start = line@;
    assert(items.take(0) =~= Seq::<Seq<char>>::empty());
    assert(start + Seq::<char>::empty() =~= start);
    let mut i: usize = 0;
    while i < group.len()
        invariant
            i <= group.len(),
            items == value_texts(group@),
            line@ == start + join(items.take(i as int), ":"@),
        decreases group.len() - i,
    {
        if i > 0 {
            line.append(":");
        }
        push_decimal(line, group[i]);
        proof {
            lemma_join_next(items, ":"@, i as int);
            assert(line@ =~= start + join(items.take(i + 1), ":"@));
        }
        i += 1;
    }
    assert(items.take(group.len() as int) =~= items);
}

/// Appends a parameter list.
pub fn push_params(line: &mut String, groups: &Vec<Vec<u64>>)
    ensures
        final(line)@ == old(line)@ + params_text(groups.deep_view()),
{
    let ghost items = group_texts(groups.deep_view());
    line.append("[");
    let ghost start = line@;
    assert(items.take(0) =~= Seq::<Seq<char>>::empty());
    let mut i: usize = 0;
    while i < groups.len()
        invariant
            i <= groups.len(),
            items == group_texts(groups.deep_view()),
            line@ == start + join(items.take(i as int), ";"@),
        decreases groups.len() - i,
    {
        if i > 0 {
            line.append(";");
        }
        push_group(line, &groups[i]);
        proof {
            assert(groups.deep_view()[i as int] == groups[i as int]@);
            lemma_join_next(items, ";"@, i as int);
            assert(line@ =~= start + join(items.take(i + 1), ";"@));
        }
        i += 1;
    }
    line.append("]");
    assert(items.take(groups.len() as int) =~= items);
    assert(line@ =~= old(line)@ + params_text(groups.deep_view()));
}

} // verus!
