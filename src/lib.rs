//! Loading and unloading of `.env` style key-value files into and out of an
//! environment table.
//!
//! A `.env` file holds lines of the form `KEY = VALUE # comment`. Each such
//! line is parsed into a key and a value ([`utils::parse_line`]), and the pairs
//! are set in, or their keys removed from, an [`env::Environment`].
use vstd::prelude::*;

pub mod env;
pub mod utils;

use crate::env::{Environment, holds_entries};
use crate::utils::{pair_keys, parsed_pairs, remove_all, set_all};

verus! {

/// `std::io::Error`, the error of a failed read, carried through as it is.
#[verifier::external_type_specification]
#[verifier::external_body]
pub struct ExIoError(std::io::Error);

/// Relies on `std::io::Read::read_to_string`: reads the source to its end as
/// text, or fails with the source's error.
#[verifier::external_body]
fn read_to_string<R: std::io::Read>(reader: &mut R) -> (r: Result<String, std::io::Error>) {
    let mut s = String::new();
    match reader.read_to_string(&mut s) {
        Ok(_) => Ok(s),
        Err(e) => Err(e),
    }
}

/// The value of `name` in `env`, if `env` holds it.
pub fn key(env: &Environment, name: &str) -> (r: Option<String>)
    requires
        env.wf(),
    ensures
        match r {
            Some(v) => env@.contains_key(name@) && env@[name@] == v@,
            None => !env@.contains_key(name@),
        },
{
    env.get(name)
}

/// A copy of `env` as it is now; later changes to `env` leave it as it is.
pub fn snapshot(env: &Environment) -> (r: Environment)
    requires
        env.wf(),
    ensures
        r.wf(),
        r@ == env@,
{
    let vars = env.vars();
    let r = Environment::from_entries(vars);
    assert(holds_entries(vars@, env@));
    r
}

/// Parses `content` as a `.env` file and sets its pairs in `env`, in order,
/// replacing the values of keys that `env` already holds.
pub fn load_from_str(env: &mut Environment, content: &str)
    requires
        old(env).wf(),
    ensures
        final(env).wf(),
        final(env)@ == set_all(old(env)@, parsed_pairs(content@), true),
{
    let lines = utils::parse_lines(content);
    utils::set_variables(env, lines.as_slice(), true);
}

/// Parses `content` as a `.env` file and removes its keys from `env`.
pub fn unload_from_str(env: &mut Environment, content: &str)
    requires
        old(env).wf(),
    ensures
        final(env).wf(),
        final(env)@ == remove_all(old(env)@, pair_keys(parsed_pairs(content@))),
{
    let lines = utils::parse_lines(content);
    assert(utils::keys_view(lines@) =~= pair_keys(utils::pairs_view(lines@)));
    utils::unload_from_parsed_lines(env, lines.as_slice());
}

/// Reads `reader` to its end and loads what it read into `env` as
/// [`load_from_str`] does.
///
/// A failure to read is returned, and `env` is then left as it was.
pub fn load_from_reader<R: std::io::Read>(reader: &mut R, env: &mut Environment) -> (r: Result<
    (),
    std::io::Error,
>)
    requires
        old(env).wf(),
    ensures
        final(env).wf(),
        r is Err ==> final(env)@ == old(env)@,
        r is Ok ==> exists|text: Seq<char>|
            final(env)@ == set_all(old(env)@, parsed_pairs(text), true),
{
    match read_to_string(reader) {
        Ok(content) => {
            load_from_str(env, content.as_str());
            Ok(())
        },
        Err(e) => Err(e),
    }
}

/// Reads `reader` to its end and unloads what it read from `env` as
/// [`unload_from_str`] does.
///
/// A failure to read is returned, and `env` is then left as it was.
pub fn unload_from_reader<R: std::io::Read>(reader: &mut R, env: &mut Environment) -> (r: Result<
    (),
    std::io::Error,
>)
    requires
        old(env).wf(),
    ensures
        final(env).wf(),
        r is Err ==> final(env)@ == old(env)@,
        r is Ok ==> exists|text: Seq<char>|
            final(env)@ == remove_all(old(env)@, pair_keys(parsed_pairs(text))),
{
    match read_to_string(reader) {
        Ok(content) => {
            unload_from_str(env, content.as_str());
            Ok(())
        },
        Err(e) => Err(e),
    }
}

} // verus!
