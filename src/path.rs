//! Choosing a free destination name: the numbered candidates and when to stop.
use vstd::prelude::*;

verus! {

/// How many numbered candidates are tried before giving up.
pub const MAX_ATTEMPTS: u64 = 10000;

/// The character of a decimal digit `d < 10`.
pub open spec fn digit_char(d: nat) -> char {
    if d == 0 {
        '0'
    } else if d == 1 {
        '1'
    } else if d == 2 {
        '2'
    } else if d == 3 {
        '3'
    } else if d == 4 {
        '4'
    } else if d == 5 {
        '5'
    } else if d == 6 {
        '6'
    } else if d == 7 {
        '7'
    } else if d == 8 {
        '8'
    } else {
        '9'
    }
}

/// The decimal digits of `n`, without leading zeros.
pub open spec fn decimal(n: nat) -> Seq<char>
    decreases n,
{
    if n < 10 {
        seq![digit_char(n)]
    } else {
        decimal(n / 10) + seq![digit_char(n % 10)]
    }
}

/// `"<stem> <count>"`, followed by `".<ext>"` where `ext` is not empty.
pub open spec fn numbered(stem: Seq<char>, ext: Seq<char>, count: nat) -> Seq<char> {
    let base = stem + seq![' '] + decimal(count);
    if ext.len() == 0 {
        base
    } else {
        base + seq!['.'] + ext
    }
}

/// Relies on `u64`'s `to_string`: its decimal digits, without leading zeros.
#[verifier::external_body]
fn decimal_string(n: u64) -> (r: String)
    ensures
        r@ == decimal(n as nat),
{
    n.to_string()
}

/// The file name `"<stem> <count>"`, with `".<ext>"` appended where `ext` is
/// not empty.
pub fn numbered_file_name(stem: &str, ext: &str, count: u64) -> (r: String)
    ensures
        r@ == numbered(stem@, ext@, count as nat),
{
    let mut r = crate::text::owned(stem);
    r.append(" ");
    r.append(decimal_string(count).as_str());
    if ext.unicode_len() > 0 {
        r.append(".");
        r.append(ext);
    }
    proof {
        reveal_strlit(" ");
        reveal_strlit(".");
        assert(" "@ =~= seq![' ']);
        assert("."@ =~= seq!['.']);
        assert(r@ =~= numbered(stem@, ext@, count as nat));
    }
    r
}

/// After the candidate numbered `count` was found taken (`0` for the
/// unnumbered name), the next candidate to try: its number, one more than
/// `count`, and its file name. `None` once `MAX_ATTEMPTS` candidates were tried.
pub fn next_candidate(stem: &str, ext: &str, count: u64) -> (r: Option<(u64, String)>)
    ensures
        r is None <==> count >= MAX_ATTEMPTS,
        r matches Some((n, name)) ==> n == count + 1 && name@ == numbered(stem@, ext@, n as nat),
{
    if count >= MAX_ATTEMPTS {
        None
    } else {
        let n = count + 1;
        Some((n, numbered_file_name(stem, ext, n)))
    }
}

/// What to do after looking at the current candidate.
pub enum Probe {
    /// The current candidate is free: use it.
    Use,
    /// Look next at the candidate with this number and file name.
    Try(u64, String),
    /// Every allowed candidate is taken.
    GiveUp,
}

/// One step of the search for a free destination. `count` numbers the
/// current candidate (`0` for the name as first asked for) and `taken` says
/// whether an entry occupies it. A free candidate is used as it stands; a
/// taken one leads to the next number, until `MAX_ATTEMPTS` were tried.
pub fn probe(stem: &str, ext: &str, count: u64, taken: bool) -> (r: Probe)
    ensures
        !taken ==> r is Use,
        taken && count >= MAX_ATTEMPTS ==> r is GiveUp,
        taken && count < MAX_ATTEMPTS ==> (r matches Probe::Try(n, name) && n == count + 1
            && name@ == numbered(stem@, ext@, n as nat)),
{
    if !taken {
        Probe::Use
    } else {
        match next_candidate(stem, ext, count) {
            Some((n, name)) => Probe::Try(n, name),
            None => Probe::GiveUp,
        }
    }
}

/// Two different counters give two different candidates, so no candidate is
/// tried twice.
pub proof fn lemma_candidates_distinct(stem: Seq<char>, ext: Seq<char>, a: nat, b: nat)
    requires
        a != b,
    ensures
        numbered(stem, ext, a) != numbered(stem, ext, b),
{
    lemma_decimal_injective(a, b);
    let da = decimal(a);
    let db = decimal(b);
    let pa = stem + seq![' '] + da;
    let pb = stem + seq![' '] + db;
    if numbered(stem, ext, a) == numbered(stem, ext, b) {
        if da.len() == db.len() {
            assert(da =~= numbered(stem, ext, a).subrange((stem.len() + 1) as int, stem.len() + 1 + da.len() as int));
            assert(db =~= numbered(stem, ext, b).subrange((stem.len() + 1) as int, stem.len() + 1 + db.len() as int));
        } else {
            lemma_decimal_digits(a);
            lemma_decimal_digits(b);
            if ext.len() == 0 {
                assert(pa.len() != pb.len());
            } else {
                let i: int = stem.len() + 1 + if da.len() < db.len() {
                    da.len() as int
                } else {
                    db.len() as int
                };
                if da.len() < db.len() {
                    assert(numbered(stem, ext, a)[i] == '.');
                    assert(numbered(stem, ext, b)[i] == db[da.len() as int]);
                } else {
                    assert(numbered(stem, ext, b)[i] == '.');
                    assert(numbered(stem, ext, a)[i] == da[db.len() as int]);
                }
            }
        }
    }
}

/// Every character of a decimal numeral is a digit.
proof fn lemma_decimal_digits(n: nat)
    ensures
        decimal(n).len() >= 1,
        forall|i: int| 0 <= i < decimal(n).len() ==> '0' <= #[trigger] decimal(n)[i] <= '9',
    decreases n,
{
    if n >= 10 {
        lemma_decimal_digits(n / 10);
    }
}

/// Different numbers have different numerals.
proof fn lemma_decimal_injective(a: nat, b: nat)
    requires
        a != b,
    ensures
        decimal(a) != decimal(b),
    decreases a + b,
{
    if a < 10 && b < 10 {
        assert(decimal(a)[0] != decimal(b)[0]);
    } else if a >= 10 && b >= 10 {
        if decimal(a) == decimal(b) {
            let la = decimal(a).len();
            assert(decimal(a / 10) =~= decimal(a).subrange(0, la - 1));
            assert(decimal(b / 10) =~= decimal(b).subrange(0, la - 1));
            assert(decimal(a)[la - 1] == digit_char(a % 10));
            assert(decimal(b)[la - 1] == digit_char(b % 10));
            if a / 10 == b / 10 {
                assert(a % 10 != b % 10);
            } else {
                lemma_decimal_injective(a / 10, b / 10);
            }
        }
    } else {
        let (small, big) = if a < 10 {
            (a, b)
        } else {
            (b, a)
        };
        lemma_decimal_leading(big);
        if decimal(a) == decimal(b) {
            assert(decimal(small).len() == 1);
            lemma_decimal_digits(big / 10);
        }
    }
}

/// The numeral of a number of two digits or more is longer than one.
proof fn lemma_decimal_leading(n: nat)
    requires
        n >= 10,
    ensures
        decimal(n).len() >= 2,
{
    lemma_decimal_digits(n / 10);
}

} // verus!
