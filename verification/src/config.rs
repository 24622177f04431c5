//! Process configuration assembled from optional raw values: the
//! administrator credentials are required, the rest have defaults.
use crate::num::{dec_val, is_digit, lemma_dec_val_extend};
use vstd::prelude::*;
use vstd::string::StrSliceExecFns;
use vstd::utf8::encode_utf8;

verus! {

#[derive(Clone)]
pub struct Config {
    pub admin_username: String,
    pub admin_password: String,
    pub jwt_secret: String,
    pub database_url: String,
    pub server_port: u16,
}

/// Why configuration could not be assembled.
#[derive(Debug, Clone, Copy, PartialEq, Eq, Structural)]
pub enum ConfigError {
    MissingAdminUsername,
    MissingAdminPassword,
    InvalidServerPort,
}

impl ConfigError {
    pub open spec fn message_spec(self) -> Seq<char> {
        match self {
            ConfigError::MissingAdminUsername => "ADMIN_USERNAME must be set"@,
            ConfigError::MissingAdminPassword => "ADMIN_PASSWORD must be set"@,
            ConfigError::InvalidServerPort => "SERVER_PORT must be a valid port number"@,
        }
    }

    pub fn message(&self) -> (r: &'static str)
        ensures
            r@ == self.message_spec(),
    {
        match self {
            ConfigError::MissingAdminUsername => "ADMIN_USERNAME must be set",
            ConfigError::MissingAdminPassword => "ADMIN_PASSWORD must be set",
            ConfigError::InvalidServerPort => "SERVER_PORT must be a valid port number",
        }
    }
}

/// The digits of a port string: an optional leading plus sign is dropped,
/// as the standard unsigned parser does.
pub open spec fn port_digits(b: Seq<u8>) -> Seq<u8> {
    if b.len() >= 1 && b[0] == 43 {
        b.skip(1)
    } else {
        b
    }
}

/// A port string is acceptable exactly when the standard `u16` parser
/// accepts it: an optional `+`, then one or more digits (leading zeros
/// allowed), with a value that fits a 16-bit port.
pub open spec fn valid_port(s: Seq<char>) -> bool {
    let d = port_digits(encode_utf8(s));
    &&& d.len() >= 1
    &&& forall|i: int| 0 <= i < d.len() ==> is_digit(d[i])
    &&& dec_val(d) <= 65535
}

/// Parses a port as the standard `u16` parser would.
#[verifier::loop_isolation(false)]
fn parse_port(b: &Vec<u8>) -> (r: Option<u16>)
    ensures
        r matches Some(v) ==> {
            let d = port_digits(b@);
            &&& d.len() >= 1
            &&& forall|i: int| 0 <= i < d.len() ==> is_digit(d[i])
            &&& v as int == dec_val(d)
            &&& dec_val(d) <= 65535
        },
        r is None ==> !({
            let d = port_digits(b@);
            &&& d.len() >= 1
            &&& forall|i: int| 0 <= i < d.len() ==> is_digit(d[i])
            &&& dec_val(d) <= 65535
        }),
{
    let ghost d = port_digits(b@);
    let mut i: usize = 0;
    if b.len() >= 1 && b[0] == 43 {
        i = 1;
    }
    proof {
        if i == 1 {
            assert(d =~= b@.skip(1));
        } else {
            assert(d =~= b@);
        }
    }
    if i == b.len() {
        return None;
    }
    let mut acc: u32 = 0;
    let mut j: usize = i;
    proof {
        assert(d.take(0) =~= Seq::<u8>::empty());
    }
    while j < b.len()
        invariant
            i <= j <= b@.len(),
            i <= 1,
            d == port_digits(b@),
            d.len() == b@.len() - i,
            forall|q: int| 0 <= q < d.len() ==> d[q] == b@[q + i],
            forall|q: int| 0 <= q < j - i ==> is_digit(d[q]),
            acc <= 65535,
            acc as int == dec_val(d.take(j - i as int)),
        decreases b@.len() - j,
    {
        let byte = b[j];
        proof {
            assert(d[j - i as int] == b@[j as int]);
        }
        if !(48 <= byte && byte <= 57) {
            proof {
                assert(!is_digit(d[j - i as int]));
            }
            return None;
        }
        let dig = (byte - 48) as u32;
        let next = acc * 10 + dig;
        proof {
            assert(d.take(j - i as int + 1).drop_last() =~= d.take(j - i as int));
            assert(dec_val(d.take(j - i as int + 1)) == acc as int * 10 + dig);
        }
        if next > 65535 {
            // the digit run only grows from here
            proof {
                if forall|q: int| 0 <= q < d.len() ==> is_digit(#[trigger] d[q]) {
                    lemma_dec_val_extend(d, j - i as int + 1);
                }
            }
            return None;
        }
        acc = next;
        j += 1;
    }
    proof {
        assert(d.take(d.len() as int) =~= d);
    }
    Some(acc as u16)
}

impl Config {
    /// Assembles the configuration. The administrator username and password
    /// are required; the signing secret, store location and port fall back
    /// to fixed defaults when absent.
    pub fn from_values(
        admin_username: Option<String>,
        admin_password: Option<String>,
        jwt_secret: Option<String>,
        database_url: Option<String>,
        server_port: Option<String>,
    ) -> (r: Result<Config, ConfigError>)
        ensures
            admin_username is None <==> r == Err::<Config, ConfigError>(
                ConfigError::MissingAdminUsername,
            ),
            admin_username is Some && admin_password is None <==> r == Err::<Config, ConfigError>(
                ConfigError::MissingAdminPassword,
            ),
            admin_username is Some && admin_password is Some && (server_port matches Some(s)
                && !valid_port(s@)) <==> r == Err::<Config, ConfigError>(
                ConfigError::InvalidServerPort,
            ),
            r matches Ok(c) ==> {
                &&& c.admin_username@ == admin_username.unwrap()@
                &&& c.admin_password@ == admin_password.unwrap()@
                &&& c.jwt_secret@ == (match jwt_secret {
                    Some(s) => s@,
                    None => "default-secret-change-in-production"@,
                })
                &&& c.database_url@ == (match database_url {
                    Some(s) => s@,
                    None => "sqlite:data.db?mode=rwc"@,
                })
                &&& (match server_port {
                    Some(s) => c.server_port as int == dec_val(port_digits(encode_utf8(s@))),
                    None => c.server_port == 3000,
                })
            },
    {
        let admin_username = match admin_username {
            None => {
                return Err(ConfigError::MissingAdminUsername);
            },
            Some(s) => s,
        };
        let admin_password = match admin_password {
            None => {
                return Err(ConfigError::MissingAdminPassword);
            },
            Some(s) => s,
        };
        let jwt_secret = match jwt_secret {
            None => String::from_str("default-secret-change-in-production"),
            Some(s) => s,
        };
        let database_url = match database_url {
            None => String::from_str("sqlite:data.db?mode=rwc"),
            Some(s) => s,
        };
        let server_port: u16 = match server_port {
            None => 3000,
            Some(s) => {
                let b = s.as_str().as_bytes_vec();
                match parse_port(&b) {
                    Some(v) => v,
                    None => {
                        return Err(ConfigError::InvalidServerPort);
                    },
                }
            },
        };
        Ok(Config { admin_username, admin_password, jwt_secret, database_url, server_port })
    }
}

} // verus!
