//! Configuration of an annotation run: the language tag that is
//! considered annotatable, the port the external analysis engine listens
//! on, and a debug switch. The engine's per-call timeout and the choice
//! to consult the result cache belong to the caller that performs the
//! engine call; the library sees only the call's outcome and the cache
//! entries themselves.

use vstd::prelude::*;
use vstd::string::StringExecFns;

verus! {

/// The decimal digit character for `d`.
pub open spec fn digit_char(d: nat) -> char {
    ((d + 48) as u8) as char
}

/// The decimal digits of `n`, most significant first.
pub open spec fn dec_digits(n: nat) -> Seq<char>
    decreases n,
{
    if n < 10 {
        seq![digit_char(n)]
    } else {
        dec_digits(n / 10).push(digit_char(n % 10))
    }
}

/// Relies on String::push: it appends exactly the given character.
#[verifier::external_body]
fn push_char(s: &mut String, c: char)
    ensures
        final(s)@ == old(s)@.push(c),
{
    s.push(c);
}

fn push_decimal(s: &mut String, n: u16)
    ensures
        final(s)@ == old(s)@ + dec_digits(n as nat),
    decreases n,
{
    if n >= 10 {
        push_decimal(s, n / 10);
    }
    let d: u8 = (n % 10) as u8;
    let ghost mid = s@;
    push_char(s, (48 + d) as char);
    proof {
        assert((48 + d) as char == digit_char((n % 10) as nat));
        if n < 10 {
            assert(s@ =~= old(s)@ + seq![digit_char(n as nat)]);
            assert(dec_digits(n as nat) == seq![digit_char(n as nat)]);
        } else {
            assert(mid == old(s)@ + dec_digits((n / 10) as nat));
            assert(dec_digits(n as nat) == dec_digits((n / 10) as nat).push(
                digit_char((n % 10) as nat),
            ));
            assert(s@ =~= old(s)@ + dec_digits(n as nat));
        }
    }
}

/// The full engine address for a port: the any-interface host followed by
/// the port in decimal.
pub open spec fn address_view(port: u16) -> Seq<char> {
    "0.0.0.0:"@ + dec_digits(port as nat)
}

/// Configuration for one annotation run.
pub struct Config {
    pub name: String,
    pub port: u16,
    pub debug: bool,
}

impl Config {
    /// Create a configuration for the given annotatable language tag,
    /// with the engine port and the debug switch at their defaults.
    pub fn new(name: &str) -> (r: Config)
        ensures
            r.name@ == name@,
            r.port == 3000,
            r.debug == false,
    {
        Config { name: name.to_owned(), port: 3000, debug: false }
    }

    /// Set the port the external analysis engine listens on.
    pub fn with_port(self, port: u16) -> (r: Config)
        ensures
            r.name == self.name,
            r.port == port,
            r.debug == self.debug,
    {
        Config { port, ..self }
    }

    /// Enable or disable debug mode.
    pub fn with_debug(self, debug: bool) -> (r: Config)
        ensures
            r.name == self.name,
            r.port == self.port,
            r.debug == debug,
    {
        Config { debug, ..self }
    }

    /// The annotatable language tag.
    pub fn name(&self) -> (r: &str)
        ensures
            r@ == self.name@,
    {
        self.name.as_str()
    }

    /// The engine address: host and port in decimal.
    pub fn address(&self) -> (r: String)
        ensures
            r@ == address_view(self.port),
    {
        let mut s = "0.0.0.0:".to_owned();
        push_decimal(&mut s, self.port);
        s
    }
}

} // verus!
