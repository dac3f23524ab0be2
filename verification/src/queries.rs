//! Rendering of word rows as SQL text for a backing row store: the single
//! insert-or-increment statement, and the pieces of a bulk insert (the field
//! list and one values tuple per row).

use vstd::prelude::*;

use crate::store::DbWord;

verus! {

/// The decimal digit character for `d`.
pub open spec fn digit_char(d: nat) -> char
    recommends
        d < 10,
{
    ((('0' as u8) + d) as u8) as char
}

/// The decimal digits of `n`, most significant first, without leading zeros
/// (`0` itself is the single digit `0`).
pub open spec fn dec_digits(n: nat) -> Seq<char>
    decreases n,
{
    if n < 10 {
        seq![digit_char(n)]
    } else {
        dec_digits(n / 10).push(digit_char(n % 10))
    }
}

/// The single-character string for a decimal digit.
fn digit_str(d: usize) -> (s: &'static str)
    requires
        d < 10,
    ensures
        s@ =~= seq![digit_char(d as nat)],
{
    proof {
        reveal_strlit("0");
        reveal_strlit("1");
        reveal_strlit("2");
        reveal_strlit("3");
        reveal_strlit("4");
        reveal_strlit("5");
        reveal_strlit("6");
        reveal_strlit("7");
        reveal_strlit("8");
        reveal_strlit("9");
    }
    match d {
        0 => "0",
        1 => "1",
        2 => "2",
        3 => "3",
        4 => "4",
        5 => "5",
        6 => "6",
        7 => "7",
        8 => "8",
        _ => "9",
    }
}

/// Appends the decimal rendering of `n` to `out`.
pub fn push_decimal(n: usize, out: &mut String)
    ensures
        final(out)@ == old(out)@ + dec_digits(n as nat),
    decreases n,
{
    if n < 10 {
        out.append(digit_str(n));
    } else {
        push_decimal(n / 10, out);
        out.append(digit_str(n % 10));
        proof {
            assert(out@ =~= old(out)@ + dec_digits(n as nat));
        }
    }
}

/// The insert-or-increment statement for one word row: inserts the row, and
/// on a conflict with the unique `word` key increments the stored
/// `apparitions` by one instead of overwriting it.
pub open spec fn word_insert_query(w: Seq<char>, apparitions: nat) -> Seq<char> {
    "INSERT INTO T_WORD (word, apparitions) VALUES (\""@ + w + "\", "@ + dec_digits(apparitions)
        + ") ON CONFLICT (word) DO UPDATE SET apparitions = apparitions + 1"@
}

/// One values tuple of a bulk insert for one word row.
pub open spec fn word_values_tuple(w: Seq<char>, apparitions: nat) -> Seq<char> {
    "(\""@ + w + "\", "@ + dec_digits(apparitions) + ")"@
}

impl DbWord {
    /// The insert-or-increment SQL statement for this row.
    pub fn to_query(&self) -> (q: String)
        ensures
            q@ == word_insert_query(self.word@, self.apparitions as nat),
    {
        let mut q = String::new();
        q.append("INSERT INTO T_WORD (word, apparitions) VALUES (\"");
        q.append(self.word.as_str());
        q.append("\", ");
        push_decimal(self.apparitions, &mut q);
        q.append(") ON CONFLICT (word) DO UPDATE SET apparitions = apparitions + 1");
        proof {
            assert(q@ =~= word_insert_query(self.word@, self.apparitions as nat));
        }
        q
    }

    /// This row's values tuple for a bulk insert statement.
    pub fn to_mult_query(&self) -> (q: String)
        ensures
            q@ == word_values_tuple(self.word@, self.apparitions as nat),
    {
        let mut q = String::new();
        q.append("(\"");
        q.append(self.word.as_str());
        q.append("\", ");
        push_decimal(self.apparitions, &mut q);
        q.append(")");
        proof {
            assert(q@ =~= word_values_tuple(self.word@, self.apparitions as nat));
        }
        q
    }

    /// The field list of the word table, as written in insert statements.
    pub fn fields(&self) -> (q: String)
        ensures
            q@ == "(word, apparitions)"@,
    {
        String::from_str("(word, apparitions)")
    }
}

} // verus!
