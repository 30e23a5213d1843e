//! The application configuration, computed from the values of the process
//! environment. The caller reads the environment and hands the raw values in;
//! the rules that turn them into a configuration live here.

use vstd::prelude::*;

use crate::text::str_eq;
use crate::text::str_starts_with;
use crate::text::starts_with_spec;
use crate::Error;

verus! {

/// `s` with every leading and trailing double-quote character removed, as
/// `str::trim_matches('"')` leaves it.
pub open spec fn trim_quotes_start(s: Seq<char>) -> Seq<char>
    decreases s.len(),
{
    if s.len() > 0 && s[0] == '"' {
        trim_quotes_start(s.drop_first())
    } else {
        s
    }
}

/// The trailing half of quote trimming.
pub open spec fn trim_quotes_end(s: Seq<char>) -> Seq<char>
    decreases s.len(),
{
    if s.len() > 0 && s.last() == '"' {
        trim_quotes_end(s.drop_last())
    } else {
        s
    }
}

/// Both halves together.
pub open spec fn trim_quotes(s: Seq<char>) -> Seq<char> {
    trim_quotes_end(trim_quotes_start(s))
}

/// The view of an optional owned string.
pub open spec fn opt_view(o: Option<String>) -> Option<Seq<char>> {
    match o {
        Some(s) => Some(s@),
        None => None,
    }
}

/// The usable value of an environment variable: quote-trimmed, and absent
/// when the variable is unset or the trimmed value is empty.
pub open spec fn spec_env_value(raw: Option<Seq<char>>) -> Option<Seq<char>> {
    match raw {
        Some(v) => {
            let t = trim_quotes(v);
            if t.len() == 0 {
                None
            } else {
                Some(t)
            }
        },
        None => None,
    }
}

/// The usable value, or `default` when there is none.
pub open spec fn spec_env_or(raw: Option<Seq<char>>, default: Seq<char>) -> Seq<char> {
    match spec_env_value(raw) {
        Some(t) => t,
        None => default,
    }
}

/// Dropping the first `a` characters computes `trim_quotes_start` when
/// exactly the first `a` characters are quotes.
proof fn lemma_trim_quotes_start_at(s: Seq<char>, a: int)
    requires
        0 <= a <= s.len(),
        forall|i: int| 0 <= i < a ==> s[i] == '"',
        a < s.len() ==> s[a] != '"',
    ensures
        trim_quotes_start(s) == s.skip(a),
    decreases a,
{
    if a == 0 {
        assert(s.skip(0) =~= s);
    } else {
        lemma_trim_quotes_start_at(s.drop_first(), a - 1);
        assert(s.drop_first().skip(a - 1) =~= s.skip(a));
    }
}

/// Keeping the first `b` characters computes `trim_quotes_end` when exactly
/// the characters from `b` on are quotes.
proof fn lemma_trim_quotes_end_at(s: Seq<char>, b: int)
    requires
        0 <= b <= s.len(),
        forall|i: int| b <= i < s.len() ==> s[i] == '"',
        b > 0 ==> s[b - 1] != '"',
    ensures
        trim_quotes_end(s) == s.take(b),
    decreases s.len() - b,
{
    if b == s.len() {
        assert(s.take(b) =~= s);
    } else {
        lemma_trim_quotes_end_at(s.drop_last(), b);
        assert(s.drop_last().take(b) =~= s.take(b));
    }
}

/// The borrowed view of an optional owned string.
fn opt_str<'a>(o: &'a Option<String>) -> (r: Option<&'a str>)
    ensures
        match o {
            Some(s) => r matches Some(v) && v@ == s@,
            None => r is None,
        },
{
    match o {
        Some(s) => Some(s.as_str()),
        None => None,
    }
}

/// Retrieves the usable value of an environment variable whose raw value is
/// `raw`: surrounding double quotes are trimmed away, and an unset variable,
/// like one left empty after trimming, is reported missing under its name.
pub fn get_env(name: &'static str, raw: Option<&str>) -> (r: Result<String, Error>)
    ensures
        match spec_env_value(match raw {
            Some(v) => Some(v@),
            None => None,
        }) {
            Some(t) => r matches Ok(s) && s@ == t,
            None => r == Err::<String, Error>(Error::MissingEnv(name)),
        },
{
    match raw {
        Some(v) => {
            let n = v.unicode_len();
            let mut a: usize = 0;
            while a < n && v.get_char(a) == '"'
                invariant
                    n == v@.len(),
                    a <= n,
                    forall|i: int| 0 <= i < a ==> v@[i] == '"',
                decreases n - a,
            {
                a = a + 1;
            }
            let mut b: usize = n;
            while b > a && v.get_char(b - 1) == '"'
                invariant
                    n == v@.len(),
                    a <= b <= n,
                    forall|i: int| b <= i < n ==> v@[i] == '"',
                decreases b,
            {
                b = b - 1;
            }
            proof {
                lemma_trim_quotes_start_at(v@, a as int);
                lemma_trim_quotes_end_at(v@.skip(a as int), b - a);
                assert(v@.skip(a as int).take(b - a) =~= v@.subrange(a as int, b as int));
            }
            if a == b {
                Err(Error::MissingEnv(name))
            } else {
                Ok(String::from_str(v.substring_char(a, b)))
            }
        },
        None => Err(Error::MissingEnv(name)),
    }
}

/// The raw environment values that the configuration reads, each exactly as
/// the process environment holds it, or absent when unset.
#[derive(Debug)]
pub struct EnvValues {
    pub host_url: Option<String>,
    pub service_port: Option<String>,
    pub is_prod: Option<String>,
    pub smtp_host: Option<String>,
    pub smtp_username: Option<String>,
    pub smtp_password: Option<String>,
    pub smtp_email_admin: Option<String>,
}

/// Configuration for the email client.
#[derive(Debug)]
pub struct SmtpConfig {
    pub relay: String,
    pub username: String,
    pub password: String,
    pub email_admin: String,
}

/// Configuration for the application.
#[derive(Debug)]
#[allow(non_snake_case)]
pub struct Config {
    pub HOST_URL: String,
    pub IS_PROD: bool,
    pub PORT: String,
    pub smtp: Option<SmtpConfig>,
}

impl Config {
    /// Populates the configuration from the given environment values: the
    /// host falls back to a local address and gets the port appended exactly
    /// then, the port falls back to the default, and mail settings exist only
    /// when both a user name and a password are set. Never fails.
    pub fn load_from_env(env: &EnvValues) -> (r: Result<Config, Error>)
        ensures
            r matches Ok(c) && {
                let base = spec_env_or(opt_view(env.host_url), "http://localhost"@);
                let port = spec_env_or(opt_view(env.service_port), "7125"@);
                let user = spec_env_value(opt_view(env.smtp_username));
                let pass = spec_env_value(opt_view(env.smtp_password));
                &&& c.HOST_URL@ == if base == "http://localhost"@ {
                    base + ":"@ + port
                } else {
                    base
                }
                &&& c.PORT@ == port
                &&& c.IS_PROD == (spec_env_or(opt_view(env.is_prod), "false"@) == "true"@)
                &&& (c.smtp is Some <==> (user is Some && pass is Some))
                &&& match c.smtp {
                    Some(smtp) => {
                        &&& smtp.relay@ == spec_env_or(opt_view(env.smtp_host), "smtp.gmail.com"@)
                        &&& Some(smtp.username@) == user
                        &&& Some(smtp.password@) == pass
                        &&& smtp.email_admin@ == spec_env_or(
                            opt_view(env.smtp_email_admin),
                            user->Some_0,
                        )
                    },
                    None => true,
                }
            },
    {
        let mut base_url = match get_env("HOST_URL", opt_str(&env.host_url)) {
            Ok(v) => v,
            Err(_) => String::from_str("http://localhost"),
        };
        let port = match get_env("SERVICE_PORT", opt_str(&env.service_port)) {
            Ok(v) => v,
            Err(_) => String::from_str("7125"),
        };
        if str_eq(base_url.as_str(), "http://localhost") {
            base_url.append(":");
            base_url.append(port.as_str());
        }
        let smtp_username = get_env("SMTP_USERNAME", opt_str(&env.smtp_username));
        let smtp_password = get_env("SMTP_PASSWORD", opt_str(&env.smtp_password));
        let smtp = match (smtp_username, smtp_password) {
            (Ok(username), Ok(password)) => {
                let relay = match get_env("SMTP_HOST", opt_str(&env.smtp_host)) {
                    Ok(v) => v,
                    Err(_) => String::from_str("smtp.gmail.com"),
                };
                let email_admin = match get_env("SMTP_EMAIL_ADMIN", opt_str(&env.smtp_email_admin))
                    {
                    Ok(v) => v,
                    Err(_) => username.clone(),
                };
                Some(SmtpConfig { relay, username, password, email_admin })
            },
            _ => None,
        };
        let is_prod_value = match get_env("IS_PROD", opt_str(&env.is_prod)) {
            Ok(v) => v,
            Err(_) => String::from_str("false"),
        };
        Ok(
            Config {
                HOST_URL: base_url,
                IS_PROD: str_eq(is_prod_value.as_str(), "true"),
                PORT: port,
                smtp,
            },
        )
    }

    /// The local listening address: the host with its scheme stripped when it
    /// is a local one, and the local host with the configured port otherwise.
    pub fn local_server_addr(&self) -> (r: String)
        requires
            starts_with_spec(self.HOST_URL@, "http://"@) || starts_with_spec(
                self.HOST_URL@,
                "https://"@,
            ),
        ensures
            ({
                let stripped = if starts_with_spec(self.HOST_URL@, "http://"@) {
                    self.HOST_URL@.skip("http://"@.len() as int)
                } else {
                    self.HOST_URL@.skip("https://"@.len() as int)
                };
                r@ == if starts_with_spec(stripped, "localhost"@) {
                    stripped
                } else {
                    "localhost:"@ + self.PORT@
                }
            }),
    {
        let host = self.HOST_URL.as_str();
        let base_addr = if str_starts_with(host, "http://") {
            let m = "http://".unicode_len();
            host.substring_char(m, host.unicode_len())
        } else {
            let m = "https://".unicode_len();
            host.substring_char(m, host.unicode_len())
        };
        proof {
            assert(base_addr@ =~= if starts_with_spec(self.HOST_URL@, "http://"@) {
                self.HOST_URL@.skip("http://"@.len() as int)
            } else {
                self.HOST_URL@.skip("https://"@.len() as int)
            });
        }
        if str_starts_with(base_addr, "localhost") {
            String::from_str(base_addr)
        } else {
            let mut r = String::from_str("localhost:");
            r.append(self.PORT.as_str());
            r
        }
    }
}

} // verus!
