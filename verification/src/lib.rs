//! Prime routines: a primality test by trial division, a generator for all
//! primes up to a bound, and a search for the longest run of consecutive
//! primes whose sum is itself prime and stays under a target.

pub mod generation;
pub mod primality;
pub mod window;
