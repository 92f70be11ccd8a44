//! The sample program's flow: configuration loading, initialization and
//! the data pipeline, kept apart from terminal output so each step's
//! result is stated exactly. The binary performs the printing and saving
//! around these calls.

use vstd::prelude::*;
use crate::models::{Config, Logger};

verus! {

/// The bytes the pipeline fetches.
pub open spec fn sample_bytes() -> Seq<u8> {
    seq![115u8, 97u8, 109u8, 112u8, 108u8, 101u8, 32u8, 100u8, 97u8, 116u8, 97u8]
}

/// The marker prepended by the transformation step.
pub open spec fn transform_prefix() -> Seq<u8> {
    seq![116u8, 114u8, 97u8, 110u8, 115u8, 102u8, 111u8, 114u8, 109u8, 101u8, 100u8, 58u8, 32u8]
}

/// The local development configuration.
pub fn load_config() -> (r: Config)
    ensures
        r.host@ == "localhost"@,
        r.port == 8080,
        r.log_level@ == "info"@,
        r.options@.len() == 0,
        r.options_wf(),
{
    Config::new("localhost", 8080, "info")
}

/// Prepares the application for the given configuration; the caller
/// applies the log level to its output.
pub fn initialize(config: &Config) -> (r: bool)
    ensures
        r == true,
{
    let _ = config;
    true
}

/// Fetches the pipeline's input data.
pub fn fetch_data() -> (r: Vec<u8>)
    ensures
        r@ =~= sample_bytes(),
{
    let mut v: Vec<u8> = Vec::new();
    v.push(115);
    v.push(97);
    v.push(109);
    v.push(112);
    v.push(108);
    v.push(101);
    v.push(32);
    v.push(100);
    v.push(97);
    v.push(116);
    v.push(97);
    v
}

/// Marks the data as transformed.
pub fn transform_data(data: &[u8]) -> (r: Vec<u8>)
    ensures
        r@ =~= transform_prefix() + data@,
{
    let mut v: Vec<u8> = Vec::new();
    v.push(116);
    v.push(114);
    v.push(97);
    v.push(110);
    v.push(115);
    v.push(102);
    v.push(111);
    v.push(114);
    v.push(109);
    v.push(101);
    v.push(100);
    v.push(58);
    v.push(32);
    let n = data.len();
    let mut i: usize = 0;
    while i < n
        invariant
            n == data@.len(),
            0 <= i <= n,
            v@ =~= transform_prefix() + data@.take(i as int),
        decreases n - i,
    {
        v.push(data[i]);
        proof {
            assert(v@ =~= transform_prefix() + data@.take(i as int + 1));
        }
        i += 1;
    }
    proof {
        assert(data@.take(n as int) =~= data@);
    }
    v
}

/// Runs the data pipeline: fetch, then transform. The caller persists
/// the returned bytes.
pub fn run_pipeline() -> (r: Vec<u8>)
    ensures
        r@ =~= transform_prefix() + sample_bytes(),
{
    let data = fetch_data();
    transform_data(data.as_slice())
}

/// A logger named for the component that asks for it.
pub fn create_logger(name: &str) -> (r: Logger)
    ensures
        r.spec_prefix() == name@,
        r.spec_level() == 1,
{
    Logger::new(name)
}

/// Hands its argument back unchanged.
pub fn identity<T>(value: T) -> (r: T)
    ensures
        r == value,
{
    value
}

/// Relies on the type's Display formatting.
#[verifier::external_body]
pub fn process_item<T: core::fmt::Display + Clone>(item: T) -> String {
    format!("{}", item)
}

/// The longer of the two texts, by byte length; ties go to the second.
pub fn longest<'a>(x: &'a str, y: &'a str) -> (r: &'a str)
    requires
        vstd::string::StringSliceAdditionalSpecFns::spec_bytes(x).len() <= usize::MAX,
        vstd::string::StringSliceAdditionalSpecFns::spec_bytes(y).len() <= usize::MAX,
    ensures
        vstd::string::StringSliceAdditionalSpecFns::spec_bytes(x).len()
            > vstd::string::StringSliceAdditionalSpecFns::spec_bytes(y).len() ==> r@ == x@,
        vstd::string::StringSliceAdditionalSpecFns::spec_bytes(x).len()
            <= vstd::string::StringSliceAdditionalSpecFns::spec_bytes(y).len() ==> r@ == y@,
{
    if x.len() > y.len() {
        x
    } else {
        y
    }
}

/// A text no live path ever asks for.
pub fn another_unused() -> (r: String)
    ensures
        r@ == "dead"@,
{
    "dead".to_owned()
}

/// The head of a call chain no live path enters.
pub fn dead_chain_start() {
    dead_chain_middle();
}

/// The middle of that chain; its tail does terminal output and lives
/// with the binary.
pub fn dead_chain_middle() {
}

/// An adder with the first summand fixed.
pub fn make_adder(x: i32) -> (f: impl Fn(i32) -> i32)
    ensures
        forall|y: i32| i32::MIN <= x + y <= i32::MAX ==> #[trigger] f.requires((y,)),
        forall|y: i32, r: i32| #[trigger] f.ensures((y,), r) ==> r == x + y,
{
    move |y: i32| -> (r: i32)
        requires
            i32::MIN <= x + y <= i32::MAX,
        ensures
            r == x + y,
        {
            x + y
        }
}

/// Applies the function twice.
pub fn apply_twice<F: Fn(i32) -> i32>(f: F, x: i32) -> (r: i32)
    requires
        f.requires((x,)),
        forall|y: i32| f.ensures((x,), y) ==> f.requires((y,)),
    ensures
        exists|y: i32| #[trigger] f.ensures((x,), y) && f.ensures((y,), r),
{
    let y = f(x);
    f(y)
}

/// Applies the operation to the arguments.
pub fn calculate<F: Fn(i32, i32) -> i32>(op: F, a: i32, b: i32) -> (r: i32)
    requires
        op.requires((a, b)),
    ensures
        op.ensures((a, b), r),
{
    op(a, b)
}

/// An unused private helper.
pub fn _private_unused() {
}

/// Adds two numbers.
pub fn _private_helper(x: i32, y: i32) -> (r: i32)
    requires
        i32::MIN <= x + y <= i32::MAX,
    ensures
        r == x + y,
{
    x + y
}

/// Another unused private helper.
pub fn _another_private() {
}

} // verus!
