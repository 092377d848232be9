use vstd::prelude::*;
use vstd::string::StringExecFns;

verus! {

/// Settings of the whole service.
pub struct Settings {
    pub application: AppSettings,
}

/// Where the service listens and how many commands may wait for the engine.
pub struct AppSettings {
    pub host: String,
    pub port: u16,
    pub matching_buffer: usize,
}

pub open spec fn digit(d: nat) -> char {
    (('0' as nat) + d) as char
}

/// The decimal digits of `n`, most significant first.
pub open spec fn decimal(n: nat) -> Seq<char>
    decreases n,
{
    if n < 10 {
        seq![digit(n)]
    } else {
        decimal(n / 10).push(digit(n % 10))
    }
}

/// Relies on `ToString` for `u16` (its `Display`): the decimal digits of the number, without
/// sign or leading zeros.
#[verifier::external_body]
fn port_digits(port: u16) -> (r: String)
    ensures
        r@ == decimal(port as nat),
{
    port.to_string()
}

impl Default for AppSettings {
    fn default() -> (r: AppSettings)
        ensures
            r.host@ == "127.0.0.1"@,
            r.port == 8000,
            r.matching_buffer == 100_000,
    {
        AppSettings { host: "127.0.0.1".to_owned(), port: 8000, matching_buffer: 100_000 }
    }
}

impl Default for Settings {
    fn default() -> (r: Settings)
        ensures
            r.application.host@ == "127.0.0.1"@,
            r.application.port == 8000,
            r.application.matching_buffer == 100_000,
    {
        Settings { application: AppSettings::default() }
    }
}

impl Settings {
    /// `host:port`, the address to listen on.
    pub fn address(&self) -> (r: String)
        ensures
            r@ == self.application.host@ + seq![':'] + decimal(self.application.port as nat),
    {
        let digits = port_digits(self.application.port);
        let mut r = self.application.host.clone();
        proof {
            reveal_strlit(":");
        }
        r.append(":");
        r.append(digits.as_str());
        assert(r@ =~= self.application.host@ + seq![':'] + decimal(self.application.port as nat));
        r
    }
}

} // verus!
