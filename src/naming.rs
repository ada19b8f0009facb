use vstd::prelude::*;

verus! {

/// The decimal digits of `n`, most significant first, without leading zeros.
pub open spec fn decimal(n: nat) -> Seq<char>
    decreases n,
{
    if n < 10 {
        seq![digit_char(n)]
    } else {
        decimal(n / 10).push(digit_char(n % 10))
    }
}

/// The character of a single decimal digit.
pub open spec fn digit_char(d: nat) -> char {
    if d == 0 { '0' } else if d == 1 { '1' } else if d == 2 { '2' } else if d == 3 { '3' }
    else if d == 4 { '4' } else if d == 5 { '5' } else if d == 6 { '6' } else if d == 7 { '7' }
    else if d == 8 { '8' } else { '9' }
}

/// `n` written with at least three digits, padded with leading zeros.
pub open spec fn padded3(n: nat) -> Seq<char> {
    if n < 10 {
        seq!['0', '0'] + decimal(n)
    } else if n < 100 {
        seq!['0'] + decimal(n)
    } else {
        decimal(n)
    }
}

/// The file name of the output archive with the given 1-based index.
pub open spec fn output_name(stem: Seq<char>, index: nat) -> Seq<char> {
    stem + decimal(index) + seq!['.', 'z', 'i', 'p']
}

/// The entry name of one fragment of an oversized entry.
pub open spec fn fragment_name(name: Seq<char>, part: nat) -> Seq<char> {
    name + seq!['.', 'p', 'a', 'r', 't'] + padded3(part)
}

proof fn lemma_decimal_len(n: nat)
    ensures
        decimal(n).len() >= 1,
        n >= 10 ==> decimal(n).len() >= 2,
        n < 10 ==> decimal(n).len() == 1,
    decreases n,
{
    if n >= 10 {
        lemma_decimal_len(n / 10);
    }
}

proof fn lemma_digit_injective(d: nat, e: nat)
    requires
        d < 10,
        e < 10,
        digit_char(d) == digit_char(e),
    ensures
        d == e,
{
}

proof fn lemma_decimal_injective(a: nat, b: nat)
    requires
        decimal(a) == decimal(b),
    ensures
        a == b,
    decreases a,
{
    lemma_decimal_len(a);
    lemma_decimal_len(b);
    if a >= 10 && b >= 10 {
        assert(decimal(a).drop_last() == decimal(a / 10));
        assert(decimal(b).drop_last() == decimal(b / 10));
        lemma_decimal_injective(a / 10, b / 10);
        assert(decimal(a).last() == digit_char(a % 10));
        assert(decimal(b).last() == digit_char(b % 10));
        lemma_digit_injective(a % 10, b % 10);
    } else if a < 10 && b < 10 {
        assert(decimal(a)[0] == digit_char(a));
        assert(decimal(b)[0] == digit_char(b));
        lemma_digit_injective(a, b);
    }
}

/// Output archives with different indices get different names.
pub proof fn lemma_output_names_distinct(stem: Seq<char>, i: nat, j: nat)
    requires
        i != j,
    ensures
        output_name(stem, i) != output_name(stem, j),
{
    if output_name(stem, i) == output_name(stem, j) {
        let x = output_name(stem, i);
        assert(output_name(stem, i).len() == stem.len() + decimal(i).len() + 4);
        assert(output_name(stem, j).len() == stem.len() + decimal(j).len() + 4);
        assert(decimal(i).len() == decimal(j).len());
        assert(decimal(i) =~= x.subrange(stem.len() as int, (stem.len() + decimal(i).len()) as int));
        assert(decimal(j) =~= output_name(stem, j).subrange(stem.len() as int, (stem.len() + decimal(j).len()) as int));
        lemma_decimal_injective(i, j);
    }
}

fn push_digit(s: &mut String, d: u64)
    requires
        d < 10,
    ensures
        final(s)@ == old(s)@.push(digit_char(d as nat)),
{
    proof {
        reveal_strlit("0");
        reveal_strlit("1");
        reveal_strlit("2");
        reveal_strlit("3");
        reveal_strlit("4");
        reveal_strlit("5");
        reveal_strlit("6");
        reveal_strlit("7");
        reveal_strlit("8");
        reveal_strlit("9");
    }
    let t = if d == 0 {
        "0"
    } else if d == 1 {
        "1"
    } else if d == 2 {
        "2"
    } else if d == 3 {
        "3"
    } else if d == 4 {
        "4"
    } else if d == 5 {
        "5"
    } else if d == 6 {
        "6"
    } else if d == 7 {
        "7"
    } else if d == 8 {
        "8"
    } else {
        "9"
    };
    s.append(t);
    assert(final(s)@ =~= old(s)@.push(digit_char(d as nat)));
}

/// Appends the decimal digits of `n` to `s`.
pub fn append_decimal(s: &mut String, n: u64)
    ensures
        final(s)@ == old(s)@ + decimal(n as nat),
    decreases n,
{
    if n >= 10 {
        append_decimal(s, n / 10);
    }
    push_digit(s, n % 10);
    assert(final(s)@ =~= old(s)@ + decimal(n as nat));
}

/// Appends `n` zero-padded to three digits to `s`.
fn append_padded3(s: &mut String, n: u64)
    ensures
        final(s)@ == old(s)@ + padded3(n as nat),
{
    proof {
        reveal_strlit("00");
        reveal_strlit("0");
    }
    if n < 10 {
        s.append("00");
    } else if n < 100 {
        s.append("0");
    }
    append_decimal(s, n);
    assert(final(s)@ =~= old(s)@ + padded3(n as nat));
}

/// The name `<stem><index>.zip` of the output archive with the given index.
pub fn get_output_filename(stem: &str, index: usize) -> (r: String)
    ensures
        r@ == output_name(stem@, index as nat),
{
    let mut s = stem.to_owned();
    append_decimal(&mut s, index as u64);
    proof {
        reveal_strlit(".zip");
    }
    s.append(".zip");
    assert(s@ =~= output_name(stem@, index as nat));
    s
}

/// The name `<name>.partNNN` of fragment `part` of an oversized entry.
pub fn get_fragment_name(name: &str, part: usize) -> (r: String)
    ensures
        r@ == fragment_name(name@, part as nat),
{
    let mut s = name.to_owned();
    proof {
        reveal_strlit(".part");
    }
    s.append(".part");
    append_padded3(&mut s, part as u64);
    assert(s@ =~= fragment_name(name@, part as nat));
    s
}

/// `name` shortened for display to at most `max_len` characters: kept whole
/// when it fits, else `...` followed by its last `max_len - 3` characters.
pub open spec fn shortened(name: Seq<char>, max_len: nat) -> Seq<char> {
    if name.len() <= max_len {
        name
    } else {
        seq!['.', '.', '.'] + name.subrange(name.len() - (max_len - 3), name.len() as int)
    }
}

/// Shortens a name for a progress line, keeping its end.
pub fn truncate_name(name: &str, max_len: usize) -> (r: String)
    requires
        max_len >= 3,
    ensures
        r@ == shortened(name@, max_len as nat),
        r@.len() <= max_len || r@ == name@,
{
    let len = name.unicode_len();
    if len <= max_len {
        name.to_owned()
    } else {
        proof {
            reveal_strlit("...");
        }
        let mut s = String::from_str("...");
        let tail = name.substring_char(len - (max_len - 3), len);
        s.append(tail);
        assert(s@ =~= shortened(name@, max_len as nat));
        s
    }
}

} // verus!
