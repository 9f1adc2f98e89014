//! The block explorer a federation uses on each network unless configured
//! otherwise.
use vstd::prelude::*;

verus! {

/// The networks with a default explorer.
#[derive(Debug, Clone, Copy, PartialEq, Eq, Structural)]
pub enum BitcoinNetwork {
    Bitcoin,
    Testnet,
    Regtest,
    Signet,
}

/// The port of the local regtest explorer when the environment names none.
pub const DEFAULT_REGTEST_ESPLORA_PORT: u16 = 50002;

/// The public explorer of a network; `None` for regtest, whose explorer runs
/// locally on a port the environment may name.
pub fn default_esplora_url(network: BitcoinNetwork) -> (r: Option<&'static str>)
    ensures
        r is None <==> network == BitcoinNetwork::Regtest,
        network == BitcoinNetwork::Bitcoin ==> r == Some("https://blockstream.info/api/"),
        network == BitcoinNetwork::Testnet ==> r == Some("https://blockstream.info/testnet/api/"),
        network == BitcoinNetwork::Signet ==> r == Some("https://mutinynet.com/api/"),
{
    match network {
        BitcoinNetwork::Bitcoin => Some("https://blockstream.info/api/"),
        BitcoinNetwork::Testnet => Some("https://blockstream.info/testnet/api/"),
        BitcoinNetwork::Regtest => None,
        BitcoinNetwork::Signet => Some("https://mutinynet.com/api/"),
    }
}

} // verus!
