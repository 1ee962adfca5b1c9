//! The sentence catalog: one descriptive line for each number the board
//! can show, rebuilt from its template on every load and never persisted.

use crate::codec::append_digit;
use crate::codec::digit_char;
use vstd::prelude::*;

verus! {

/// A number below 100 in decimal, without a leading zero.
pub open spec fn dec_rep(n: int) -> Seq<char> {
    if n < 10 {
        seq![digit_char(n)]
    } else {
        seq![digit_char(n / 10), digit_char(n % 10)]
    }
}

/// The sentence shown for a number.
pub open spec fn sentence_of(n: int) -> Seq<char> {
    "This is sentence number "@ + dec_rep(n) + "."@
}

/// Build the catalog: the sentence for every number in `1..=75`, at the
/// index one below the number it describes.
pub fn generate_sentences() -> (r: Vec<String>)
    ensures
        r@.len() == crate::MAX_NUMBER as int,
        forall|i: int| 0 <= i < r@.len() ==> (#[trigger] r@[i])@ == sentence_of(i + 1),
{
    let mut sentences: Vec<String> = Vec::new();
    let mut n: u8 = 1;
    while n <= crate::MAX_NUMBER
        invariant
            1 <= n <= crate::MAX_NUMBER + 1,
            sentences@.len() == n - 1,
            forall|i: int| 0 <= i < n - 1 ==> (#[trigger] sentences@[i])@ == sentence_of(i + 1),
        decreases crate::MAX_NUMBER + 1 - n,
    {
        let mut line = String::from_str("This is sentence number ");
        if n < 10 {
            append_digit(&mut line, n);
            proof {
                assert("This is sentence number "@ + seq![digit_char(n as int)] =~= line@);
            }
        } else {
            append_digit(&mut line, n / 10);
            append_digit(&mut line, n % 10);
            proof {
                assert("This is sentence number "@ + seq![digit_char(n as int / 10), digit_char(
                    n as int % 10,
                )] =~= line@);
            }
        }
        let ghost with_num = line@;
        line.append(".");
        proof {
            assert(line@ =~= with_num + "."@);
            assert(line@ =~= sentence_of(n as int));
        }
        sentences.push(line);
        n = n + 1;
    }
    sentences
}

} // verus!
