//! How many connections the proxy handles at once.

use vstd::prelude::*;
use crate::outside::cpu_count;
use crate::proxy::directives::opt_text;
use crate::text::{chars_of, parse_unsigned, parse_unsigned_u64};

verus! {

broadcast use vstd::string::group_string_axioms;

/// The concurrency limit: the value of `TINY_PROXY_MAX_CONCURRENCY` when it
/// reads as an unsigned number, else 256 per CPU.
pub open spec fn concurrency_limit(env_value: Option<Seq<char>>, cpus: nat) -> nat {
    match env_value {
        Some(v) => match parse_unsigned(v, usize::MAX as nat) {
            Some(n) => n,
            None => cpus * 256,
        },
        None => cpus * 256,
    }
}

/// The concurrency limit for the variable's value `env_value` on a machine
/// with `cpus` CPUs (see [`concurrency_limit`]).
pub fn max_concurrency_for(env_value: Option<&str>, cpus: usize) -> (n: usize)
    requires
        cpus * 256 <= usize::MAX,
    ensures
        n == concurrency_limit(
            opt_text(env_value),
            cpus as nat,
        ),
{
    match env_value {
        Some(v) => {
            let c = chars_of(v);
            match parse_unsigned_u64(c.as_slice(), usize::MAX as u64) {
                Some(n) => n as usize,
                None => cpus * 256,
            }
        },
        None => cpus * 256,
    }
}

/// The default concurrency limit on this machine (see
/// [`concurrency_limit`]); nothing when 256 per CPU would not fit in a
/// `usize` and the variable does not set the limit.
pub fn default_max_concurrency(env_value: Option<&str>) -> (r: Option<usize>)
    ensures
        r matches Some(n) ==> exists|cpus: nat|
            cpus >= 1 && #[trigger] concurrency_limit(
                opt_text(env_value),
                cpus,
            ) == n,
        match opt_text(env_value) {
            Some(v) => match parse_unsigned(v, usize::MAX as nat) {
                Some(n) => r matches Some(x) && x == n,
                None => true,
            },
            None => true,
        },
{
    let cpus = cpu_count();
    if cpus <= usize::MAX / 256 {
        Some(max_concurrency_for(env_value, cpus))
    } else {
        match env_value {
            Some(v) => {
                let c = chars_of(v);
                match parse_unsigned_u64(c.as_slice(), usize::MAX as u64) {
                    Some(n) => {
                        assert(concurrency_limit(Some(v@), cpus as nat) == n);
                        Some(n as usize)
                    },
                    None => None,
                }
            },
            None => None,
        }
    }
}

} // verus!
