//! Deterministic, collision-free naming of artifact files.
//!
//! Each processed item receives an id from a strictly increasing counter,
//! and its artifact is written under `{directory}/covers/{id}.jpg`. Ids
//! are rendered in decimal, and distinct ids give distinct paths, so no
//! two artifacts of a run can overwrite one another.

use vstd::arithmetic::div_mod::lemma_fundamental_div_mod;
use vstd::prelude::*;
use vstd::string::StrSliceExecFns;
use vstd::string::StringExecFns;

verus! {

/// The character of one decimal digit.
pub open spec fn digit_char(d: nat) -> char {
    if d == 0 {
        '0'
    } else if d == 1 {
        '1'
    } else if d == 2 {
        '2'
    } else if d == 3 {
        '3'
    } else if d == 4 {
        '4'
    } else if d == 5 {
        '5'
    } else if d == 6 {
        '6'
    } else if d == 7 {
        '7'
    } else if d == 8 {
        '8'
    } else {
        '9'
    }
}

/// The digit a decimal character stands for.
pub open spec fn char_digit(c: char) -> nat {
    if c == '0' {
        0
    } else if c == '1' {
        1
    } else if c == '2' {
        2
    } else if c == '3' {
        3
    } else if c == '4' {
        4
    } else if c == '5' {
        5
    } else if c == '6' {
        6
    } else if c == '7' {
        7
    } else if c == '8' {
        8
    } else {
        9
    }
}

/// The decimal numeral of `n`, most significant digit first, without
/// leading zeros (`0` itself is the single character `'0'`).
pub open spec fn dec_digits(n: nat) -> Seq<char>
    decreases n,
{
    if n < 10 {
        seq![digit_char(n)]
    } else {
        dec_digits(n / 10).push(digit_char(n % 10))
    }
}

/// The number a sequence of decimal characters denotes.
pub open spec fn dec_value(s: Seq<char>) -> nat
    decreases s.len(),
{
    if s.len() == 0 {
        0
    } else {
        dec_value(s.drop_last()) * 10 + char_digit(s.last())
    }
}

/// Round trip: reading the numeral of `n` back gives `n`.
pub proof fn lemma_dec_digits_value(n: nat)
    ensures
        dec_value(dec_digits(n)) == n,
    decreases n,
{
    if n < 10 {
        let s = dec_digits(n);
        assert(s.len() == 1);
        assert(s.last() == digit_char(n));
        assert(s.drop_last() =~= Seq::<char>::empty());
        assert(dec_value(s.drop_last()) == 0);
        assert(char_digit(digit_char(n)) == n);
        assert(dec_value(s) == char_digit(digit_char(n)));
    } else {
        lemma_dec_digits_value(n / 10);
        let s = dec_digits(n / 10);
        let d = n % 10;
        let full = s.push(digit_char(d));
        assert(full.drop_last() =~= s);
        assert(full.last() == digit_char(d));
        lemma_fundamental_div_mod(n as int, 10);
        assert(d < 10);
        assert(char_digit(digit_char(d)) == d);
        assert(dec_value(full) == dec_value(s) * 10 + d);
        assert(n == (n / 10) * 10 + d);
    }
}

/// Distinct numbers have distinct numerals.
pub proof fn lemma_dec_digits_injective(a: nat, b: nat)
    requires
        dec_digits(a) == dec_digits(b),
    ensures
        a == b,
{
    lemma_dec_digits_value(a);
    lemma_dec_digits_value(b);
}

/// The one-character string of a decimal digit.
fn digit_str(d: u64) -> (r: &'static str)
    requires
        d < 10,
    ensures
        r@ == seq![digit_char(d as nat)],
{
    if d == 0 {
        proof {
            reveal_strlit("0");
            assert("0"@ =~= seq![digit_char(0)]);
        }
        "0"
    } else if d == 1 {
        proof {
            reveal_strlit("1");
            assert("1"@ =~= seq![digit_char(1)]);
        }
        "1"
    } else if d == 2 {
        proof {
            reveal_strlit("2");
            assert("2"@ =~= seq![digit_char(2)]);
        }
        "2"
    } else if d == 3 {
        proof {
            reveal_strlit("3");
            assert("3"@ =~= seq![digit_char(3)]);
        }
        "3"
    } else if d == 4 {
        proof {
            reveal_strlit("4");
            assert("4"@ =~= seq![digit_char(4)]);
        }
        "4"
    } else if d == 5 {
        proof {
            reveal_strlit("5");
            assert("5"@ =~= seq![digit_char(5)]);
        }
        "5"
    } else if d == 6 {
        proof {
            reveal_strlit("6");
            assert("6"@ =~= seq![digit_char(6)]);
        }
        "6"
    } else if d == 7 {
        proof {
            reveal_strlit("7");
            assert("7"@ =~= seq![digit_char(7)]);
        }
        "7"
    } else if d == 8 {
        proof {
            reveal_strlit("8");
            assert("8"@ =~= seq![digit_char(8)]);
        }
        "8"
    } else {
        proof {
            reveal_strlit("9");
            assert("9"@ =~= seq![digit_char(9)]);
        }
        "9"
    }
}

/// Renders `n` in decimal.
pub fn u64_to_dec_string(n: u64) -> (r: String)
    ensures
        r@ == dec_digits(n as nat),
    decreases n,
{
    if n < 10 {
        String::from_str(digit_str(n))
    } else {
        let mut s = u64_to_dec_string(n / 10);
        s.append(digit_str(n % 10));
        proof {
            assert(dec_digits((n / 10) as nat) + seq![digit_char((n % 10) as nat)] =~= dec_digits(
                (n / 10) as nat,
            ).push(digit_char((n % 10) as nat)));
        }
        s
    }
}

/// The artifact path of item `id` under `dir`.
pub open spec fn artifact_path_spec(dir: Seq<char>, id: nat) -> Seq<char> {
    dir + "/covers/"@ + dec_digits(id) + ".jpg"@
}

/// Builds the artifact path `{dir}/covers/{id}.jpg`.
pub fn artifact_path(dir: &str, id: u64) -> (r: String)
    ensures
        r@ == artifact_path_spec(dir@, id as nat),
{
    let mut s = dir.to_owned();
    s.append("/covers/");
    let id_s = u64_to_dec_string(id);
    s.append(id_s.as_str());
    s.append(".jpg");
    s
}

/// Distinct ids name distinct artifact files in the same directory.
pub proof fn lemma_artifact_paths_distinct(dir: Seq<char>, a: nat, b: nat)
    requires
        a != b,
    ensures
        artifact_path_spec(dir, a) != artifact_path_spec(dir, b),
{
    if artifact_path_spec(dir, a) == artifact_path_spec(dir, b) {
        let x = dir + "/covers/"@;
        let da = dec_digits(a);
        let db = dec_digits(b);
        let s = ".jpg"@;
        assert((x + da + s).len() == (x + db + s).len());
        assert(da.len() == db.len());
        assert(da =~= (x + da + s).subrange(x.len() as int, x.len() + da.len() as int));
        assert(db =~= (x + db + s).subrange(x.len() as int, x.len() + db.len() as int));
        lemma_dec_digits_injective(a, b);
        assert(false);
    }
}

/// Hands out the ids under which artifact files are named: a strictly
/// increasing counter, so ids of one run never repeat.
pub struct ArtifactNamer {
    next_id: u64,
}

impl ArtifactNamer {
    /// The id the next artifact will receive.
    pub closed spec fn next(&self) -> nat {
        self.next_id as nat
    }

    /// A fresh namer, starting at id zero.
    pub fn new() -> (r: ArtifactNamer)
        ensures
            r.next() == 0,
    {
        ArtifactNamer { next_id: 0 }
    }

    /// Whether another id can still be handed out.
    pub fn has_next(&self) -> (r: bool)
        ensures
            r == (self.next() < u64::MAX),
    {
        self.next_id < u64::MAX
    }

    /// The path for the next artifact under `dir`, consuming one id.
    pub fn next_artifact_path(&mut self, dir: &str) -> (r: String)
        requires
            old(self).next() < u64::MAX,
        ensures
            r@ == artifact_path_spec(dir@, old(self).next()),
            final(self).next() == old(self).next() + 1,
    {
        let id = self.next_id;
        self.next_id = self.next_id + 1;
        artifact_path(dir, id)
    }
}

} // verus!
