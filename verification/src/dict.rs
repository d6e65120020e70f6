//! Construction of the direct-table cost model from dictionary data.
//!
//! A dictionary source arrives as an alphabet row and one row of cost fields
//! per symbol, each field a decimal numeral. `Database::build` checks the
//! shape and the fields and returns either a well-formed model or
//! `MalformedDictionary` — never a partial model, and never a panic.

use vstd::prelude::*;

use crate::Characters;
use crate::Database;

verus! {

/// The construction error: the dictionary source cannot be parsed into a
/// consistent alphabet and cost structure.
#[derive(Clone, Copy, PartialEq, Eq, Structural, Debug)]
pub struct MalformedDictionary;

/// `c` is a decimal digit.
pub open spec fn is_digit(c: char) -> bool {
    48 <= c as u32 <= 57
}

/// The numeric value of the digit `c`.
pub open spec fn digit_val(c: char) -> nat {
    (c as u32 - 48) as nat
}

/// Every character of `s` is a decimal digit, and there is at least one.
pub open spec fn is_numeric(s: Seq<char>) -> bool {
    s.len() > 0 && forall|i: int| 0 <= i < s.len() ==> is_digit(#[trigger] s[i])
}

/// The value of `s` read as a decimal numeral.
pub open spec fn dec_val(s: Seq<char>) -> nat
    decreases s.len(),
{
    if s.len() == 0 {
        0
    } else {
        dec_val(s.drop_last()) * 10 + digit_val(s.last())
    }
}

/// A numeral is worth no less than any of its prefixes.
proof fn lemma_dec_val_prefix(s: Seq<char>, i: int)
    requires
        0 <= i <= s.len(),
    ensures
        dec_val(s.take(i)) <= dec_val(s),
    decreases s.len() - i,
{
    if i < s.len() {
        lemma_dec_val_prefix(s, i + 1);
        assert(s.take(i + 1).drop_last() =~= s.take(i));
        assert(dec_val(s.take(i + 1)) == dec_val(s.take(i)) * 10 + digit_val(s.take(i + 1).last()));
    } else {
        assert(s.take(i) =~= s);
    }
}

/// A cell of a row above `x` lies below the row-major start of row `x`.
proof fn lemma_cell_below(a: int, b: int, x: int, n: int)
    requires
        0 <= a < x,
        0 <= b < n,
    ensures
        0 <= a * n + b < x * n,
{
    assert(0 <= a * n + b < x * n) by (nonlinear_arith)
        requires
            0 <= a < x,
            0 <= b < n,
    ;
}

/// Reads a cost field as a decimal numeral: the value exactly when every
/// character is a digit, there is at least one, and the value fits a machine
/// integer; `None` otherwise.
pub fn parse_cost(s: &str) -> (r: Option<usize>)
    ensures
        match r {
            Some(v) => is_numeric(s@) && v == dec_val(s@),
            None => !(is_numeric(s@) && dec_val(s@) <= usize::MAX),
        },
{
    let n = s.unicode_len();
    if n == 0 {
        return None;
    }
    let mut acc: usize = 0;
    let mut i: usize = 0;
    while i < n
        invariant
            0 < n,
            n == s@.len(),
            0 <= i <= n,
            forall|k: int| 0 <= k < i ==> is_digit(#[trigger] s@[k]),
            acc == dec_val(s@.take(i as int)),
        decreases n - i,
    {
        let c = s.get_char(i);
        let u = c as u32;
        if u < 48 || u > 57 {
            proof {
                assert(!is_digit(s@[i as int]));
            }
            return None;
        }
        let d = (u - 48) as usize;
        proof {
            assert(s@.take(i + 1).drop_last() =~= s@.take(i as int));
            assert(s@.take(i + 1).last() == s@[i as int]);
            assert(dec_val(s@.take(i + 1)) == acc * 10 + digit_val(s@[i as int]));
        }
        let acc10 = match acc.checked_mul(10) {
            Some(v) => v,
            None => {
                proof {
                    lemma_dec_val_prefix(s@, i + 1);
                }
                return None;
            },
        };
        acc = match acc10.checked_add(d) {
            Some(v) => v,
            None => {
                proof {
                    lemma_dec_val_prefix(s@, i + 1);
                }
                return None;
            },
        };
        i = i + 1;
    }
    proof {
        assert(s@.take(n as int) =~= s@);
    }
    Some(acc)
}

/// The dictionary rows form a consistent cost table over `names`: one row
/// per symbol, one field per symbol in every row, every field a decimal
/// numeral whose value fits a machine integer.
pub open spec fn rows_ok(names: Seq<char>, rows: Seq<Vec<String>>) -> bool {
    &&& rows.len() == names.len()
    &&& forall|x: int| 0 <= x < rows.len() ==> (#[trigger] rows[x]@).len() == names.len()
    &&& forall|x: int, y: int|
        0 <= x < rows.len() && 0 <= y < rows[x]@.len() ==> {
            &&& is_numeric((#[trigger] rows[x]@[y])@)
            &&& dec_val(rows[x]@[y]@) <= usize::MAX
        }
}

impl Database {
    /// Builds a direct-table cost model from dictionary data: `names` is the
    /// alphabet in order, and the field `rows[x][y]` holds the substitution
    /// cost from `names[x]` to `names[y]` as a decimal numeral. Fails with
    /// `MalformedDictionary`, returning no partial model, exactly when the
    /// row count or some row's width differs from the alphabet's size, or
    /// some cost field is not a numeral that fits a machine integer.
    pub fn build(names: Vec<char>, rows: &Vec<Vec<String>>, max_distance_size: usize) -> (r:
        Result<Database, MalformedDictionary>)
        requires
            max_distance_size <= u8::MAX,
        ensures
            r is Ok <==> rows_ok(names@, rows@),
            match r {
                Ok(db) => {
                    &&& db.wf()
                    &&& db.characters.names@ == names@
                    &&& db.max_distance_size == max_distance_size
                    &&& db.characters.costs@.len() == names@.len() * names@.len()
                    &&& forall|x: int, y: int|
                        0 <= x < names@.len() && 0 <= y < names@.len()
                            ==> db.characters.costs@[x * names@.len() + y] == dec_val(
                            (#[trigger] rows@[x]@[y])@,
                        )
                },
                Err(e) => e == (MalformedDictionary {  }),
            },
    {
        let n = names.len();
        if rows.len() != n {
            return Err(MalformedDictionary {  });
        }
        let mut costs: Vec<usize> = Vec::new();
        let mut x: usize = 0;
        while x < n
            invariant
                n == names@.len(),
                rows@.len() == n,
                0 <= x <= n,
                costs@.len() == x * n,
                forall|a: int| 0 <= a < x ==> (#[trigger] rows@[a]@).len() == n,
                forall|a: int, b: int|
                    0 <= a < x && 0 <= b < n ==> {
                        &&& is_numeric((#[trigger] rows@[a]@[b])@)
                        &&& dec_val(rows@[a]@[b]@) <= usize::MAX
                        &&& costs@[a * n + b] == dec_val(rows@[a]@[b]@)
                    },
            decreases n - x,
        {
            let row = &rows[x];
            if row.len() != n {
                return Err(MalformedDictionary {  });
            }
            let mut y: usize = 0;
            while y < n
                invariant
                    n == names@.len(),
                    rows@.len() == n,
                    0 <= x < n,
                    0 <= y <= n,
                    row == &rows@[x as int],
                    row@.len() == n,
                    costs@.len() == x * n + y,
                    forall|a: int| 0 <= a < x ==> (#[trigger] rows@[a]@).len() == n,
                    forall|a: int, b: int|
                        0 <= a < x && 0 <= b < n ==> {
                            &&& is_numeric((#[trigger] rows@[a]@[b])@)
                            &&& dec_val(rows@[a]@[b]@) <= usize::MAX
                            &&& costs@[a * n + b] == dec_val(rows@[a]@[b]@)
                        },
                    forall|b: int|
                        0 <= b < y ==> {
                            &&& is_numeric((#[trigger] rows@[x as int]@[b])@)
                            &&& dec_val(rows@[x as int]@[b]@) <= usize::MAX
                            &&& costs@[x as int * n + b] == dec_val(rows@[x as int]@[b]@)
                        },
                decreases n - y,
            {
                let v = match parse_cost(row[y].as_str()) {
                    Some(v) => v,
                    None => {
                        return Err(MalformedDictionary {  });
                    },
                };
                costs.push(v);
                proof {
                    assert forall|a: int, b: int| 0 <= a < x && 0 <= b < n implies costs@[a * n
                        + b] == dec_val((#[trigger] rows@[a]@[b])@) by {
                        lemma_cell_below(a, b, x as int, n as int);
                    };
                }
                y = y + 1;
            }
            proof {
                assert(x * n + n == (x + 1) * n) by (nonlinear_arith);
            }
            x = x + 1;
        }
        let db = Database {
            characters: (Characters { names, costs }),
            max_distance_size,
        };
        proof {
            assert(db.characters.costs@.len() == n * n);
        }
        Ok(db)
    }
}

} // verus!
