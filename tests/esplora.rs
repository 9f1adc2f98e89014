use fedimint_core::esplora::{default_esplora_url, BitcoinNetwork};

#[test]
fn default_explorers() {
    assert_eq!(default_esplora_url(BitcoinNetwork::Bitcoin), Some("https://blockstream.info/api/"));
    assert_eq!(
        default_esplora_url(BitcoinNetwork::Testnet),
        Some("https://blockstream.info/testnet/api/")
    );
    assert_eq!(default_esplora_url(BitcoinNetwork::Signet), Some("https://mutinynet.com/api/"));
    assert_eq!(default_esplora_url(BitcoinNetwork::Regtest), None);
}
