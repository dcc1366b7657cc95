//! End-to-end tests over the regtest fixture: thirty consecutive block
//! headers, genesis first, each with its trailing transaction count byte as
//! carried in a `headers` message.

use tapyrus_spv::block::{block_hash, decode_header, serialize_header, BlockHash, BlockHeader};
use tapyrus_spv::chain::{Chain, Error as ChainError};
use tapyrus_spv::network::blockheaderdownload::{process_headers, BlockHeaderDownload};
use tapyrus_spv::network::handshake::{Handshake, HandshakeState};
use tapyrus_spv::network::message::{Network, NetworkMessage, RawNetworkMessage, VersionMessage};
use tapyrus_spv::network::peer::Peer;
use tapyrus_spv::network::Error as NetError;
use tapyrus_spv::store::{BlockIndex, ChainStore, OnMemoryChainStore};
use tapyrus_spv::ChainState;

static HEADER_STRINGS: [&str; 30] = [
    "0100000000000000000000000000000000000000000000000000000000000000000000003ba3edfd7a7b12b27ac72c3e67768f617fc81bc3888a51323a9fb8aa4b1e5e4adae5494dffff7f200200000000",
    "0000002006226e46111a0b59caaf126043eb5bbf28c34f3a5e332a1fc7b2b73cf188910f9ac8c52a76cecbb7e642bf3456088cf92fda32cd746364180a058640c23b6e5ae4db3f5dffff7f200100000000",
    "00000020a59485ce0c710919c8b08b6c821c3ee9c8ac9f9f4e669865b2545aec7d03357631db0c7f7d68c7c479f68a015d0817b6530e451656b524c9e9e92fad8c0fb18711dc3f5dffff7f200100000000",
    "00000020d5e3096fd8b3e62cda15efab068a03d5638dea830125401b22a449fee5642f10d5638982537da6ed5fbbc305d6fbe9939bdaadacc1e5050b4253afc5349fd94911dc3f5dffff7f200200000000",
    "0000002078e0dd192118b729ef3fcae8c652a08411149cb041c341b71b804d943e7eed7355c080d5afb9947a0813fcf5d094a953227a5cf14706ca1eaf0dad1a1df51d3412dc3f5dffff7f200100000000",
    "0000002026fa5a5d583aeee50166aee3fd23b1be12d70109b9ca6894024a312f83f805625b2183b24650430f488dc934a7a420de0001024000625c1051d9c2bd702cfc8c12dc3f5dffff7f200100000000",
    "0000002072aa3f1d9a93fb465bee015fbe13f47530e55698b3cf86b95535d263f1a2e90cfb09a081a82f8dc8c7d618f6a3c2b6dabb16e3f8b7fcbf3feab0ef5a2c0bc5f012dc3f5dffff7f200100000000",
    "000000204b68e7945e82d78a7997256c3220811de64efbc66bffca0ac39ae5ab3ace627a5ef57b2bc5a5ba1c22fb9290284440813beef3ebf24bb6d9655a36ceadee450612dc3f5dffff7f200100000000",
    "000000208cbf05f78a146c5fbfa0028b8590c3452e580ba1db76a1967a645527237d2a09ed4e2e35533fd1cfe4e78cd7eb712aeb303adacc43d15cd577e7fff025fe410d13dc3f5dffff7f200300000000",
    "00000020b10895e1ab8a61f8b6fce5e5fa75d8e55463b1da94d561c04a9acc98c2395605275e585b973409554e40b925edf46659f71acac0688e7799e0b60b4de578015113dc3f5dffff7f200100000000",
    "000000209e7b1087ff87e006a1ab109c61d8f8157867cda933b9d797befd968872e033687f2ddca40f598c8e98b79eea6f757bb8bbd55ccdba3338199a7745d2ecfd7e5013dc3f5dffff7f200000000000",
    "0000002084b25d78733ab3c60f51964cfbb782d79dfe98bdcc8224b205c6e7c1a544e82ff285f6eec2249e58a26f0a99d73db9fa0ea09ff617df7629200936564170e7ae13dc3f5dffff7f200000000000",
    "00000020bbccaa60175228cfe8243304439c7cab303034d8e70d4bd1442edf667677ce68ee7714b2eef52375473f50a492fdd3794ba42ff11ac30055d9c11fb32f85686913dc3f5dffff7f200000000000",
    "00000020e6c1f21841685054bebe8c0a24237fe7dfb26faca259531435c608af80219701e9faf83ebabe8a48dd2e80895633e0b0826de8fe41c79bc3f78a99b4bb645acf13dc3f5dffff7f200200000000",
    "0000002063ef903231cd2e1e6f7487ee7ecaecaf3aa83f1bb539ce5bffd05ed275410e6db9acd16169cb3a356b04a14311bd4d385ef16802b34648da5cef91a0d572b1f914dc3f5dffff7f200200000000",
    "00000020783e043f3aea75a6c0b20dc611c6f546a9aea76f63660716a05e2740502bf50d3acd80a6d1e5105ca88b302219e5ddd670e406b192d7ee5fb838aef513f0bfe414dc3f5dffff7f200100000000",
    "000000200b6bf18bf4cc30db1ca983e8bb72074bba6b2ed6626e0a6add5c781bd763031e7a8bf90438161abe772d0f24f9a7f6dfd6bd923602b24e13334b1ba44b41dcd514dc3f5dffff7f200000000000",
    "000000205ed34f17407d5e225a89b5d5b4dab943bccca31e0c944d8927cd6b01fbf04f3ab55e6c7568dde00cbbaa885e496aa6aeafe78c09441bc8010186a68a7ddf0dbe14dc3f5dffff7f200500000000",
    "0000002008536a8608b4b25fc356d75031a17dcb7a0d9f1e4bfa96b0b37b41d0d38a4344f2f1c0cd541eb0c8b9f5151a3007da0ec2f231b6185faf0492d75f18efc2cdcb14dc3f5dffff7f200000000000",
    "000000206eb61e90a9e62855a4bf2a5f003203565ff7c25bd007fc4653a6edb897f3451acda8e18913f17995cc152d59fcef3ac18b02ae822067ef7a490cc833000bce0e14dc3f5dffff7f200300000000",
    "00000020b1c009f3edcc5159b6f6b632b433e773a888e695159151522530742afbbef329a18922d2926c764abe774b7cb507f17c32739331471082c8b264ba76f63140d115dc3f5dffff7f200000000000",
    "000000203cea71bc68a662f0e0c8e6c363a85b1c6707e8716eed54efefa47785e6621823ed79df9de6c7607c895cf04ccd014321362ee816d0505b0cdc6952c46b8d04fa15dc3f5dffff7f200300000000",
    "000000204d17823d8341381a52f3bd70db90fccf8dd85230ffb19ffb419920f19ae1fd6a962b3178f66ab073457a71da5e073a7d5818bc25f74258d4fe13c25a213519df15dc3f5dffff7f200000000000",
    "00000020a44fe78d0e055de067423e6a9bf44ad52a60405979588afdefd222a846c7ef45ae8586935f28d502978e146236cec0480a81bd575a3ff46dc23e9e0efe532b0915dc3f5dffff7f200700000000",
    "00000020a3aea44648bb23bbd124a66fb031f14a7118d041d18e2b8c3d3ad844ecffe17fa3396c08c9ba73bf3818ae74689470fd273b27a6618d9424cd07de030c49d05815dc3f5dffff7f200000000000",
    "000000201e0840750a0230e99c980ed891ea2b822ee79cdd6631b074ec1f26349f495357617cbecc24429f3e5e01456ee4d7bd8058b2c90023e789ffe9c96afb0310752115dc3f5dffff7f200000000000",
    "00000020b814bc4964d19e415dab6c5678f846bff979e16d83f47973c157843cf5f2f862f50454fb9c8e4fe31c2c8beac27a31879def6115c4c70bf7493323d5ee975cb516dc3f5dffff7f200100000000",
    "00000020ad253e6dbbdbb439802bdc7a46554efeb6a83ea3c8ade1611dfb2e720d3273545e55e72d1b1407f04825c3525cb11f05a0d7363899b87a702eaf63261162ae7216dc3f5dffff7f200000000000",
    "00000020692d91531cfb8549dc359923ab725f8c4f495bc8cbfd0355f9e0a588416d3811b485822a9a5fdf4613f7d03f98cd6d08a43ca3196324e219c9b27a3707fdf66f16dc3f5dffff7f200000000000",
    "00000020f783e2d0cbbec7f75515a694d54b809a8261ec0bc265a37cf00025954d47b469551cf4fef7df7ed1b5f304c9f5e3be89e1af56ee7f0290d07ac8b700020b76eb16dc3f5dffff7f200100000000",
];

fn parse_header(hex_str: &str) -> BlockHeader {
    let bytes = hex::decode(hex_str).unwrap();
    // strip the trailing transaction-count byte
    decode_header(&bytes[..80]).unwrap()
}

fn get_test_headers(start: usize, count: usize) -> Vec<BlockHeader> {
    HEADER_STRINGS[start..start + count].iter().map(|s| parse_header(s)).collect()
}

fn get_test_block_hash(height: usize) -> BlockHash {
    block_hash(&get_test_headers(height, 1)[0])
}

fn genesis() -> BlockHeader {
    parse_header(HEADER_STRINGS[0])
}

fn get_chain() -> Chain<OnMemoryChainStore> {
    let mut store = OnMemoryChainStore::new();
    store.initialize(&genesis()).unwrap();
    Chain::new(store)
}

/// A header on a private branch: links to `prev`, distinguished by `nonce`.
fn make_header(prev: &BlockHash, nonce: u32) -> BlockHeader {
    BlockHeader {
        version: 0x20000000,
        prev_blockhash: *prev,
        merkle_root: BlockHash::zero(),
        time: 1_570_000_000,
        bits: 0x207fffff,
        nonce,
    }
}

#[test]
fn test_process_headers_fails_when_passed_over_max_headers_results() {
    let mut peer = Peer::new(0, String::from("0.0.0.0:0"), Network::Regtest);

    let mut chain_state = ChainState::new(get_chain());
    let chain_active = chain_state.borrow_mut_chain_active();
    let headers = get_test_headers(1, 11);
    let result = process_headers(&mut peer, chain_active, &headers, 10);

    assert!(result.is_err());
    match result {
        Err(NetError::MaliciousPeer(peer_id)) => assert_eq!(peer_id, 0),
        _ => assert!(false),
    }
}

/// Linear sync over three `headers` rounds of 10, 10 and 3, checking each
/// `getheaders` the driver queues on the way, as the remote peer would.
#[test]
fn blockheaderdownload_test() {
    let peer = Peer::new(0, String::from("0.0.0.0:0"), Network::Regtest);
    let mut chain_state = ChainState::new(get_chain());

    let mut download = BlockHeaderDownload {
        peer: Some(peer),
        started: false,
        max_headers_results: 10,
    };

    // first turn: nothing received yet; the opening getheaders goes out
    let empty: Vec<NetworkMessage> = vec![];
    let r = download.poll(chain_state.borrow_mut_chain_active(), &empty).unwrap();
    assert!(r.is_none());
    let frames = download.peer.as_mut().unwrap().flush();
    assert_eq!(frames.len(), 1);
    match &frames[0].payload {
        NetworkMessage::GetHeaders(g) => {
            assert_eq!(g.locator_hashes.len(), 1);
            assert!(g.locator_hashes[0].same(&get_test_block_hash(0)));
            assert!(g.stop_hash.is_zero());
        },
        _ => panic!("peer should send 1st getheaders message"),
    }

    // second round trip: ten headers arrive, next getheaders goes out
    let inbox = vec![NetworkMessage::Headers(get_test_headers(1, 10))];
    let r = download.poll(chain_state.borrow_mut_chain_active(), &inbox).unwrap();
    assert!(r.is_none());
    let frames = download.peer.as_mut().unwrap().flush();
    assert_eq!(frames.len(), 1);
    match &frames[0].payload {
        NetworkMessage::GetHeaders(g) => {
            let expected: Vec<BlockHash> =
                (0..11).rev().map(|h| get_test_block_hash(h)).collect();
            assert_eq!(g.locator_hashes.len(), expected.len());
            for (got, want) in g.locator_hashes.iter().zip(expected.iter()) {
                assert!(got.same(want));
            }
            assert!(g.stop_hash.is_zero());
        },
        _ => panic!("peer should send 2nd getheaders message"),
    }

    // third round trip: ten more headers
    let inbox = vec![NetworkMessage::Headers(get_test_headers(11, 10))];
    let r = download.poll(chain_state.borrow_mut_chain_active(), &inbox).unwrap();
    assert!(r.is_none());
    let frames = download.peer.as_mut().unwrap().flush();
    assert_eq!(frames.len(), 1);
    match &frames[0].payload {
        NetworkMessage::GetHeaders(g) => {
            assert!(g.stop_hash.is_zero());
        },
        _ => panic!("peer should send 3rd getheaders message"),
    }

    // final short batch of 3: the download completes
    let inbox = vec![NetworkMessage::Headers(get_test_headers(21, 3))];
    let r = download.poll(chain_state.borrow_mut_chain_active(), &inbox).unwrap();
    assert!(r.is_some());

    assert_eq!(chain_state.borrow_chain_active().height(), 23);
}

/// Chain density and integrity after a linear sync: every height resolves
/// to a record at that height, linked to the hash one below.
#[test]
fn chain_density_and_integrity() {
    let mut chain = get_chain();
    for h in get_test_headers(1, 23) {
        chain.connect_block_header(h).unwrap();
    }
    assert_eq!(chain.height(), 23);
    for h in 0..=23i32 {
        let hash = chain.get_block_hash(h).unwrap();
        let b = chain.get_block_index(&hash).unwrap();
        assert_eq!(b.height, h);
        if h > 0 {
            let below = chain.get_block_hash(h - 1).unwrap();
            assert!(b.header.prev_blockhash.same(&below));
        }
    }
    assert!(chain.get_block_hash(24).is_none());
    assert!(chain.get_block_hash(-1).is_none());
}

/// Locator shape at tip height 23: ten single steps down from the tip,
/// then doubling gaps, genesis last.
#[test]
fn locator_shape_after_sync() {
    let mut chain = get_chain();
    for h in get_test_headers(1, 23) {
        chain.connect_block_header(h).unwrap();
    }
    let locator = chain.get_locator();
    let expected_heights: Vec<usize> = vec![23, 22, 21, 20, 19, 18, 17, 16, 15, 14, 13, 11, 7, 0];
    assert_eq!(locator.len(), expected_heights.len());
    for (got, h) in locator.iter().zip(expected_heights.iter()) {
        assert!(got.same(&get_test_block_hash(*h)));
    }
}

/// Applying the same header twice leaves the store unchanged and returns
/// the same record.
#[test]
fn connect_is_idempotent() {
    let mut chain = get_chain();
    let header = get_test_headers(1, 1)[0];
    let first = chain.connect_block_header(header).unwrap();
    let second = chain.connect_block_header(header).unwrap();
    assert_eq!(first.height, second.height);
    assert!(block_hash(&first.header).same(&block_hash(&second.header)));
    assert!(first.next_blockhash.same(&second.next_blockhash));
    assert_eq!(chain.height(), 1);
    let tip = chain.tip();
    assert!(block_hash(&tip.header).same(&get_test_block_hash(1)));
}

/// Two distinct headers at equal height: the first seen stays the tip.
#[test]
fn first_seen_tie_break() {
    let mut chain = get_chain();
    let header_a = get_test_headers(1, 1)[0];
    chain.connect_block_header(header_a).unwrap();
    let genesis_hash = get_test_block_hash(0);
    let header_b = make_header(&genesis_hash, 777);
    let stored = chain.connect_block_header(header_b).unwrap();
    assert_eq!(stored.height, 1);
    assert_eq!(chain.height(), 1);
    let tip = chain.tip();
    assert!(block_hash(&tip.header).same(&get_test_block_hash(1)));
    // the tie header is stored, just not active
    assert!(chain.get_block_index(&block_hash(&header_b)).is_some());
}

/// A strictly longer branch rooted at genesis takes over the active chain.
#[test]
fn reorg_to_longer_branch() {
    let mut chain = get_chain();
    // branch A: fixture headers at heights 1..=5
    for h in get_test_headers(1, 5) {
        chain.connect_block_header(h).unwrap();
    }
    assert_eq!(chain.height(), 5);
    // branch B: six private headers sharing only genesis
    let mut prev = get_test_block_hash(0);
    let mut branch_b: Vec<BlockHash> = Vec::new();
    for i in 0..6u32 {
        let h = make_header(&prev, 1000 + i);
        prev = block_hash(&h);
        branch_b.push(prev);
        chain.connect_block_header(h).unwrap();
    }
    assert_eq!(chain.height(), 6);
    let tip = chain.tip();
    assert!(block_hash(&tip.header).same(&branch_b[5]));
    let at3 = chain.get_block_hash(3).unwrap();
    assert!(at3.same(&branch_b[2]));
    // integrity still holds across the new branch
    for h in 1..=6i32 {
        let hash = chain.get_block_hash(h).unwrap();
        let b = chain.get_block_index(&hash).unwrap();
        let below = chain.get_block_hash(h - 1).unwrap();
        assert!(b.header.prev_blockhash.same(&below));
    }
}

/// An orphan inside a batch is ignored; well-rooted headers around it still
/// connect.
#[test]
fn orphan_header_is_tolerated() {
    let mut peer = Peer::new(7, String::from("0.0.0.0:0"), Network::Regtest);
    let mut chain = get_chain();
    let orphan = make_header(&BlockHash { bytes: [0xAB; 32] }, 5);
    let good = get_test_headers(1, 2);
    let batch = vec![good[0], orphan, good[1]];
    let r = process_headers(&mut peer, &mut chain, &batch, 10).unwrap();
    assert!(r);
    assert_eq!(chain.height(), 2);
    assert!(chain.get_block_index(&block_hash(&orphan)).is_none());
}

/// Connecting a header with an unknown parent fails with `OrphanHeader`.
#[test]
fn orphan_header_error() {
    let mut chain = get_chain();
    let orphan = make_header(&BlockHash { bytes: [0xCD; 32] }, 9);
    assert!(matches!(chain.connect_block_header(orphan), Err(ChainError::OrphanHeader)));
}

/// A frame carrying another network's magic is rejected.
#[test]
fn wrong_magic_is_rejected() {
    let peer = Peer::new(0, String::from("0.0.0.0:0"), Network::Regtest);
    let raw = RawNetworkMessage { magic: Network::Mainnet.magic(), payload: NetworkMessage::Verack };
    match peer.receive(raw) {
        Err(NetError::WrongMagicBytes) => {},
        _ => panic!("a mainnet frame must be rejected on a regtest peer"),
    }
    let ok = RawNetworkMessage { magic: Network::Regtest.magic(), payload: NetworkMessage::Verack };
    assert!(peer.receive(ok).is_ok());
}

/// The handshake sends `version`, answers the remote's `version` with
/// `verack`, and completes on the remote's `verack`.
#[test]
fn handshake_runs_to_done() {
    let peer = Peer::new(3, String::from("0.0.0.0:0"), Network::Regtest);
    let mut hs = Handshake::new(peer);
    assert!(matches!(hs.state, HandshakeState::Init));
    hs.start();
    assert!(matches!(hs.eof_error(), Some(NetError::UnexpectedEof)));
    let frames = hs.peer.flush();
    assert_eq!(frames.len(), 1);
    match &frames[0].payload {
        NetworkMessage::Version(v) => {
            assert_eq!(v.services, 0);
            assert_eq!(v.start_height, 0);
            assert_eq!(v.user_agent, "/tapyrus-spv:0.1.0/");
        },
        _ => panic!("handshake must open with version"),
    }
    // a stray payload is drained
    assert!(!hs.on_message(NetworkMessage::Unknown));
    // the remote's version is cached and answered with verack
    let remote = VersionMessage {
        version: 70015,
        services: 1,
        timestamp: 0,
        receiver: tapyrus_spv::network::message::NetAddress::blank(),
        sender: tapyrus_spv::network::message::NetAddress::blank(),
        nonce: 42,
        user_agent: String::from("/remote:1.0/"),
        start_height: 100,
    };
    assert!(!hs.on_message(NetworkMessage::Version(remote)));
    assert!(hs.peer.version.is_some());
    let frames = hs.peer.flush();
    assert_eq!(frames.len(), 1);
    assert!(matches!(frames[0].payload, NetworkMessage::Verack));
    assert!(!hs.is_done());
    assert!(hs.on_message(NetworkMessage::Verack));
    assert!(hs.is_done());
    assert!(hs.eof_error().is_none());
    let peer = hs.into_peer();
    assert_eq!(peer.id, 3);
}

/// Sync to height 23, write the store out, read it back: the same tip and
/// the same hashes at every height.
#[test]
fn restart_after_persistence() {
    let mut chain = get_chain();
    for h in get_test_headers(1, 23) {
        chain.connect_block_header(h).unwrap();
    }
    let mut expected: Vec<BlockHash> = Vec::new();
    for h in 0..=23i32 {
        expected.push(chain.get_block_hash(h).unwrap());
    }
    let store = chain.into_store();
    let image = store.encode();
    let reopened = OnMemoryChainStore::decode(&image).unwrap();
    let chain2 = Chain::new(reopened);
    assert_eq!(chain2.height(), 23);
    for h in 0..=23i32 {
        let hash = chain2.get_block_hash(h).unwrap();
        assert!(hash.same(&expected[h as usize]));
    }
    let tip = chain2.tip();
    assert!(block_hash(&tip.header).same(&expected[23]));
}

/// Garbage bytes are not a store image.
#[test]
fn decode_rejects_garbage() {
    assert_eq!(
        OnMemoryChainStore::decode(&[1, 2, 3]).err(),
        Some(ChainError::StoreConsistency)
    );
    let junk = vec![0xFFu8; 200];
    assert!(OnMemoryChainStore::decode(&junk).is_err());
}

/// Initializing twice with the same genesis is a no-op; with a different
/// one it fails.
#[test]
fn initialize_is_idempotent() {
    let mut store = OnMemoryChainStore::new();
    store.initialize(&genesis()).unwrap();
    store.initialize(&genesis()).unwrap();
    let other = make_header(&BlockHash::zero(), 31);
    assert_eq!(store.initialize(&other), Err(ChainError::StoreConsistency));
}

/// The 80-byte header codec round-trips and reads the genesis fields.
#[test]
fn header_codec() {
    let g = genesis();
    assert_eq!(g.version, 1);
    assert!(g.prev_blockhash.is_zero());
    assert_eq!(g.time, 1296688602);
    assert_eq!(g.bits, 0x207fffff);
    assert_eq!(g.nonce, 2);
    let bytes = serialize_header(&g);
    assert_eq!(bytes.len(), 80);
    let again = decode_header(&bytes).unwrap();
    assert!(block_hash(&again).same(&block_hash(&g)));
    assert!(decode_header(&bytes[..79]).is_none());
}

/// The hash primitive really hashes: each fixture header's hash is the
/// next header's parent link.
#[test]
fn block_hash_links_fixture() {
    for h in 0..10usize {
        let this = get_test_headers(h, 1)[0];
        let next = get_test_headers(h + 1, 1)[0];
        assert!(block_hash(&this).same(&next.prev_blockhash));
        assert!(!block_hash(&this).same(&block_hash(&next)));
    }
}

/// The version message the handshake opens with.
#[test]
fn version_message_fields() {
    let v = tapyrus_spv::network::peer::version_message();
    assert_eq!(v.services, 0);
    assert_eq!(v.start_height, 0);
    assert_eq!(v.user_agent, "/tapyrus-spv:0.1.0/");
    assert_eq!(v.receiver.services, 0);
    assert_eq!(v.receiver.port, 0);
    assert_eq!(v.receiver.ip, [0u16; 8]);
    assert_eq!(v.sender.services, 0);
    assert_eq!(v.sender.port, 0);
    assert_eq!(v.sender.ip, [0u16; 8]);
}

/// A final short batch followed by a full batch in the same turn still
/// completes the download: completion, once marked, sticks for the turn.
#[test]
fn completion_sticks_within_a_turn() {
    let peer = Peer::new(0, String::from("0.0.0.0:0"), Network::Regtest);
    let mut chain_state = ChainState::new(get_chain());
    let mut download = BlockHeaderDownload {
        peer: Some(peer),
        started: false,
        max_headers_results: 10,
    };
    let inbox = vec![
        NetworkMessage::Headers(get_test_headers(1, 3)),
        NetworkMessage::Headers(get_test_headers(4, 10)),
    ];
    let r = download.poll(chain_state.borrow_mut_chain_active(), &inbox).unwrap();
    assert!(r.is_some());
    assert_eq!(chain_state.borrow_chain_active().height(), 13);
}

/// Store lookups behave as a keyed map with a dense height index.
#[test]
fn store_lookups() {
    let mut store = OnMemoryChainStore::new();
    store.initialize(&genesis()).unwrap();
    let gh = get_test_block_hash(0);
    assert!(store.get(&gh).is_some());
    assert!(store.get(&BlockHash { bytes: [9; 32] }).is_none());
    assert_eq!(store.height_index_len(), 1);
    assert!(store.tip_hash().same(&gh));
    let at0 = store.get_at_height(0).unwrap();
    assert_eq!(at0.height, 0);
    assert!(store.get_at_height(1).is_none());
    let h1 = get_test_headers(1, 1)[0];
    let k1 = block_hash(&h1);
    let b1 = BlockIndex { header: h1, height: 1, next_blockhash: BlockHash::zero() };
    store.put(&k1, &b1);
    assert!(store.get(&k1).is_some());
    store.set_height_index(1, &k1);
    store.update_tip(&k1);
    assert_eq!(store.height_index_len(), 2);
    assert!(store.tip_hash().same(&k1));
    store.clear_height_index_above(0);
    assert_eq!(store.height_index_len(), 1);
}
