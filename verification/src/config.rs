use vstd::prelude::*;

verus! {

/// Process configuration.  Reading the environment is the deployment
/// shell's concern; this type records the resolved values and supplies the
/// documented defaults for the optional ones.
#[derive(Debug, Clone, PartialEq, Eq)]
pub struct Config {
    pub server_address: String,
    pub redis_url: String,
    pub ethereum_ws_url: String,
    pub ethereum_http_url: String,
    pub jwt_secret: String,
    pub cors_origins: Vec<String>,
    pub uniswap_v3_factory: String,
    pub default_room: String,
}

impl Config {
    /// Assembles a configuration: the chain endpoints and token secret are
    /// required, every other field falls back to its default when absent.
    pub fn resolve(
        server_address: Option<String>,
        redis_url: Option<String>,
        ethereum_ws_url: String,
        ethereum_http_url: String,
        jwt_secret: String,
        cors_origins: Vec<String>,
        uniswap_v3_factory: Option<String>,
        default_room: Option<String>,
    ) -> (c: Config)
        ensures
            c.server_address@ == (match server_address {
                Some(s) => s@,
                None => "0.0.0.0:3000"@,
            }),
            c.redis_url@ == (match redis_url {
                Some(s) => s@,
                None => "redis://localhost:6379"@,
            }),
            c.ethereum_ws_url == ethereum_ws_url,
            c.ethereum_http_url == ethereum_http_url,
            c.jwt_secret == jwt_secret,
            c.cors_origins == cors_origins,
            c.uniswap_v3_factory@ == (match uniswap_v3_factory {
                Some(s) => s@,
                None => "0x1F98431c8aD98523631AE4a59f267346ea31F984"@,
            }),
            c.default_room@ == (match default_room {
                Some(s) => s@,
                None => "general"@,
            }),
    {
        Config {
            server_address: match server_address {
                Some(s) => s,
                None => String::from_str("0.0.0.0:3000"),
            },
            redis_url: match redis_url {
                Some(s) => s,
                None => String::from_str("redis://localhost:6379"),
            },
            ethereum_ws_url,
            ethereum_http_url,
            jwt_secret,
            cors_origins,
            uniswap_v3_factory: match uniswap_v3_factory {
                Some(s) => s,
                None => String::from_str("0x1F98431c8aD98523631AE4a59f267346ea31F984"),
            },
            default_room: match default_room {
                Some(s) => s,
                None => String::from_str("general"),
            },
        }
    }
}

} // verus!
