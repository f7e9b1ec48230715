use vstd::prelude::*;

verus! {

/// Number of workers when none, or no usable one, is given.
pub const DEFAULT_POOL_SIZE: u8 = 3;

/// The store drivers a connection string can select.
#[derive(Clone, Copy, Debug, PartialEq, Eq, Structural)]
pub enum Backend {
    Postgres,
}

/// Startup errors, all fatal and never retried.
#[derive(Clone, Copy, Debug, PartialEq, Eq, Structural)]
pub enum ConfigError {
    /// The connection string's scheme selects no driver.
    UnknownScheme,
}

pub open spec fn is_digit(b: u8) -> bool {
    48 <= b <= 57
}

pub open spec fn all_digits(s: Seq<u8>) -> bool {
    forall|i: int| 0 <= i < s.len() ==> is_digit(s[i])
}

/// The number that a string of decimal digits denotes.
pub open spec fn digits_value(s: Seq<u8>) -> int
    decreases s.len(),
{
    if s.len() == 0 {
        0
    } else {
        digits_value(s.drop_last()) * 10 + (s.last() - 48)
    }
}

/// An unsigned decimal number: an optional `+`, then one or more digits.
pub open spec fn unsigned_part(s: Seq<u8>) -> Seq<u8> {
    if s.len() > 0 && s[0] == 43 {
        s.drop_first()
    } else {
        s
    }
}

/// Whether `s` reads as a decimal number from 1 to 255.
pub open spec fn is_pool_size(s: Seq<u8>) -> bool {
    let d = unsigned_part(s);
    d.len() > 0 && all_digits(d) && 0 < digits_value(d) <= 255
}

/// The pool size that an optional command-line argument gives.
pub open spec fn spec_pool_size(arg: Option<Seq<u8>>) -> u8 {
    match arg {
        Some(s) => if is_pool_size(s) {
            digits_value(unsigned_part(s)) as u8
        } else {
            DEFAULT_POOL_SIZE
        },
        None => DEFAULT_POOL_SIZE,
    }
}

proof fn lemma_digits_value_nonneg(s: Seq<u8>)
    requires
        all_digits(s),
    ensures
        digits_value(s) >= 0,
    decreases s.len(),
{
    if s.len() > 0 {
        lemma_digits_value_nonneg(s.drop_last());
    }
}

/// The worker-pool size: the argument read as a decimal number (an optional
/// `+`, then digits) when it is one from 1 to 255, the default otherwise.
pub fn pool_size(arg: Option<&[u8]>) -> (n: u8)
    ensures
        n == spec_pool_size(
            match arg {
                Some(s) => Some(s@),
                None => None,
            },
        ),
        n > 0,
{
    match arg {
        Some(s) => parse_pool_size(s),
        None => DEFAULT_POOL_SIZE,
    }
}

fn parse_pool_size(s: &[u8]) -> (n: u8)
    ensures
        n == spec_pool_size(Some(s@)),
        n > 0,
{
    let start: usize = if s.len() > 0 && s[0] == 43 { 1 } else { 0 };
    let ghost d = unsigned_part(s@);
    proof {
        assert(d =~= s@.subrange(start as int, s@.len() as int));
    }
    if start >= s.len() {
        return DEFAULT_POOL_SIZE;
    }
    let mut v: u32 = 0;
    let mut over = false;
    let mut i: usize = start;
    proof {
        assert(d.subrange(0, 0) =~= Seq::<u8>::empty());
    }
    while i < s.len()
        invariant
            start <= i <= s@.len(),
            d == s@.subrange(start as int, s@.len() as int),
            d == unsigned_part(s@),
            all_digits(d.subrange(0, i - start)),
            !over ==> v as int == digits_value(d.subrange(0, i - start)) && v <= 255,
            over ==> digits_value(d.subrange(0, i - start)) > 255,
        decreases s@.len() - i,
    {
        let b = s[i];
        if b < 48 || b > 57 {
            proof {
                assert(d[i - start] == b);
                assert(!is_digit(d[i - start]));
                assert(!all_digits(d));
            }
            return DEFAULT_POOL_SIZE;
        }
        proof {
            let p = d.subrange(0, i - start);
            let p1 = d.subrange(0, i - start + 1);
            assert(p1.drop_last() =~= p);
            assert(p1.last() == b);
            assert(all_digits(p1));
            lemma_digits_value_nonneg(p);
        }
        if !over {
            v = v * 10 + (b - 48) as u32;
            if v > 255 {
                over = true;
            }
        }
        i = i + 1;
    }
    proof {
        assert(d.subrange(0, i - start) =~= d);
    }
    if over || v == 0 {
        DEFAULT_POOL_SIZE
    } else {
        v as u8
    }
}

/// `postgres://`
pub open spec fn postgres_prefix() -> Seq<u8> {
    seq![112u8, 111, 115, 116, 103, 114, 101, 115, 58, 47, 47]
}

/// `postgresql://`
pub open spec fn postgresql_prefix() -> Seq<u8> {
    seq![112u8, 111, 115, 116, 103, 114, 101, 115, 113, 108, 58, 47, 47]
}

pub open spec fn has_prefix(s: Seq<u8>, p: Seq<u8>) -> bool {
    p.len() <= s.len() && s.subrange(0, p.len() as int) == p
}

/// The driver that a connection string's scheme selects, if any.
pub open spec fn spec_backend(url: Seq<u8>) -> Option<Backend> {
    if has_prefix(url, postgres_prefix()) || has_prefix(url, postgresql_prefix()) {
        Some(Backend::Postgres)
    } else {
        None
    }
}

fn starts_with(s: &[u8], p: &[u8]) -> (r: bool)
    ensures
        r == has_prefix(s@, p@),
{
    if p.len() > s.len() {
        return false;
    }
    let mut i: usize = 0;
    while i < p.len()
        invariant
            i <= p@.len() <= s@.len(),
            forall|j: int| 0 <= j < i ==> s@[j] == p@[j],
        decreases p@.len() - i,
    {
        if s[i] != p[i] {
            proof {
                assert(s@.subrange(0, p@.len() as int)[i as int] != p@[i as int]);
            }
            return false;
        }
        i = i + 1;
    }
    proof {
        assert(s@.subrange(0, p@.len() as int) =~= p@);
    }
    true
}

/// Selects the store driver by the connection string's scheme. An unknown
/// scheme is a configuration error: fatal, before any work is done.
pub fn backend_for(url: &[u8]) -> (r: Result<Backend, ConfigError>)
    ensures
        spec_backend(url@) == Some(Backend::Postgres) ==> r == Ok::<Backend, ConfigError>(
            Backend::Postgres,
        ),
        spec_backend(url@) is None ==> r == Err::<Backend, ConfigError>(ConfigError::UnknownScheme),
{
    let short: [u8; 11] = [112, 111, 115, 116, 103, 114, 101, 115, 58, 47, 47];
    let long: [u8; 13] = [112, 111, 115, 116, 103, 114, 101, 115, 113, 108, 58, 47, 47];
    proof {
        assert(short@ =~= postgres_prefix());
        assert(long@ =~= postgresql_prefix());
    }
    if starts_with(url, &short) || starts_with(url, &long) {
        Ok(Backend::Postgres)
    } else {
        Err(ConfigError::UnknownScheme)
    }
}

} // verus!
