//! The names of the files that hold the chunks: their indexes in decimal.

use vstd::prelude::*;
use vstd::string::StringExecFns;

verus! {

/// The digit for `d`.
pub open spec fn digit(d: nat) -> char {
    ('0' as nat + d) as char
}

/// `n` in decimal, without leading zeros.
pub open spec fn decimal(n: nat) -> Seq<char>
    decreases n,
{
    if n < 10 {
        seq![digit(n)]
    } else {
        decimal(n / 10).push(digit(n % 10))
    }
}

fn push_digit(name: &mut String, d: u64)
    requires
        d < 10,
    ensures
        final(name)@ == old(name)@.push(digit(d as nat)),
{
    proof {
        reveal_strlit("0");
        reveal_strlit("1");
        reveal_strlit("2");
        reveal_strlit("3");
        reveal_strlit("4");
        reveal_strlit("5");
        reveal_strlit("6");
        reveal_strlit("7");
        reveal_strlit("8");
        reveal_strlit("9");
    }
    let text = match d {
        0 => "0",
        1 => "1",
        2 => "2",
        3 => "3",
        4 => "4",
        5 => "5",
        6 => "6",
        7 => "7",
        8 => "8",
        _ => "9",
    };
    name.append(text);
    assert(name@ =~= old(name)@.push(digit(d as nat)));
}

/// The name of the file that holds the chunk with `index`.
pub fn chunk_file_name(index: u64) -> (name: String)
    ensures
        name@ == decimal(index as nat),
    decreases index,
{
    let mut name = if index < 10 {
        String::new()
    } else {
        chunk_file_name(index / 10)
    };
    push_digit(&mut name, index % 10);
    assert(index < 10 ==> name@ =~= decimal(index as nat));
    name
}

/// The number that a name in decimal stands for.
pub open spec fn number(name: Seq<char>) -> nat
    decreases name.len(),
{
    if name.len() == 0 {
        0
    } else {
        10 * number(name.drop_last()) + (name.last() as nat - '0' as nat) as nat
    }
}

proof fn lemma_number(n: nat)
    ensures
        number(decimal(n)) == n,
    decreases n,
{
    let name = decimal(n);
    if n < 10 {
        assert(name.drop_last() =~= Seq::empty());
        assert(number(Seq::empty()) == 0);
    } else {
        lemma_number(n / 10);
        assert(name.drop_last() =~= decimal(n / 10));
    }
    assert(name.last() as nat - '0' as nat == n % 10);
}

/// No two chunks share a file name.
pub proof fn law_names_differ(a: u64, b: u64)
    requires
        a != b,
    ensures
        decimal(a as nat) != decimal(b as nat),
{
    lemma_number(a as nat);
    lemma_number(b as nat);
}

/// A name consists of digits, does not begin with a zero unless that is all of it, and read as a
/// number gives the index of its chunk.
pub proof fn law_name_reads_as_the_index(n: nat)
    ensures
        number(decimal(n)) == n,
        decimal(n).len() > 0,
        forall|i: int| 0 <= i < decimal(n).len() ==> '0' <= #[trigger] decimal(n)[i] <= '9',
        decimal(n).len() > 1 ==> decimal(n)[0] != '0',
    decreases n,
{
    lemma_number(n);
    if n >= 10 {
        law_name_reads_as_the_index(n / 10);
        let before = decimal(n / 10);
        assert(decimal(n)[0] == before[0]);
        if before.len() == 1 {
            assert(number(before.drop_last()) == 0) by {
                assert(before.drop_last() =~= Seq::empty());
            }
        }
        assert forall|i: int| 0 <= i < decimal(n).len() implies '0' <= #[trigger] decimal(n)[i]
            <= '9' by {
            if i < before.len() {
                assert(decimal(n)[i] == before[i]);
            }
        }
    }
}

} // verus!
