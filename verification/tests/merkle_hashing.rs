use futures_tutorial::merkle::{
    hash_block, hash_block_digests, hash_directory, hash_file_contents, hash_tree, FileHasher,
    Tree,
};
use futures_tutorial::order::{bytes_le, sort_children};
use futures_tutorial::blocks::BlockReader;
use futures_tutorial::sha::{finish_sha256, Sha256Hasher};

fn hex(bytes: &[u8]) -> String {
    let digits = b"0123456789abcdef";
    let mut s = String::new();
    for b in bytes {
        s.push(digits[(b >> 4) as usize] as char);
        s.push(digits[(b & 0x0f) as usize] as char);
    }
    s
}

const EMPTY_DIGEST: &str = "e3b0c44298fc1c149afbf4c8996fb92427ae41e4649b934ca495991b7852b855";

#[test]
fn block_digest_is_sha256() {
    assert_eq!(
        hex(&hash_block(b"abc")),
        "ba7816bf8f01cfea414140de5dae2223b00361a396177a9cb410ff61f20015ad"
    );
    assert_eq!(hex(&hash_block(b"")), EMPTY_DIGEST);
}

#[test]
fn block_digests_combine_in_order() {
    let digests = vec![hash_block(b"ab"), hash_block(b"cd")];
    assert_eq!(
        hex(&hash_block_digests(&digests)),
        "c5fdd166560d16ced70242cfaf2894e2bc666fe24fff13449c52299f63c749ce"
    );
    let swapped = vec![hash_block(b"cd"), hash_block(b"ab")];
    assert_ne!(hash_block_digests(&digests), hash_block_digests(&swapped));
}

#[test]
fn file_digest_splits_into_blocks() {
    assert_eq!(
        hex(&hash_file_contents(b"hello world", 4)),
        "27e89a419b10f4630e93ce5507793b1c14e69aa0bbf09f3a7773a2c6fa5eb2d3"
    );
    assert_eq!(
        hex(&hash_file_contents(b"abcdefgh", 4)),
        "7d5473712172f9ec1494baa03da3d8734d12d385d1ca6340856771c3d93382e6"
    );
}

#[test]
fn file_digest_single_block() {
    let exact = hash_file_contents(b"hello world", 11);
    let larger = hash_file_contents(b"hello world", 100);
    assert_eq!(hex(&exact), "bc62d4b80d9e36da29c16c5d4d9f11731f36052c72401a76c23c0fb5a9b74423");
    assert_eq!(exact, larger);
}

#[test]
fn file_digest_edge_cases() {
    assert_eq!(hex(&hash_file_contents(b"", 4)), EMPTY_DIGEST);
    assert_eq!(hex(&hash_file_contents(b"hello world", 0)), EMPTY_DIGEST);
}

#[test]
fn streaming_ignores_read_sizes() {
    let data = b"the quick brown fox jumps over the lazy dog";
    let whole = hash_file_contents(data, 5);
    for pattern in [1usize, 2, 3, 5, 7] {
        let mut hasher = FileHasher::new(5);
        let mut offset = 0;
        while offset < data.len() {
            let take = pattern.min(hasher.room()).min(data.len() - offset);
            hasher.absorb(&data[offset..offset + take]);
            offset += take;
        }
        assert_eq!(hasher.finish(), whole);
    }
}

#[test]
fn file_hasher_room_tracks_block() {
    let mut hasher = FileHasher::new(4);
    assert_eq!(hasher.room(), 4);
    hasher.absorb(b"abc");
    assert_eq!(hasher.room(), 1);
    assert!(hasher.can_close_block());
    hasher.absorb(b"d");
    assert_eq!(hasher.room(), 4);
    assert_eq!(hasher.finish(), hash_file_contents(b"abcd", 4));
    let zero = FileHasher::new(0);
    assert_eq!(zero.room(), 0);
    assert!(!zero.can_close_block());
}

#[test]
fn pooled_block_digests_give_file_digest() {
    let data = b"hello world";
    let digests: Vec<[u8; 32]> = data.chunks(4).map(hash_block).collect();
    assert_eq!(hash_block_digests(&digests), hash_file_contents(data, 4));
}

fn child(name: &str, digest: [u8; 32]) -> (String, [u8; 32]) {
    (name.to_string(), digest)
}

#[test]
fn directory_digest_with_names() {
    let a = hash_file_contents(b"alpha\n", 4);
    let b = hash_file_contents(b"beta\n", 4);
    assert_eq!(hex(&a), "1d1b78a1b9b830d4f1d3606eb884c131e8bd9ced28fcbda57a3c9bd21130f61f");
    assert_eq!(hex(&b), "672e91fac52d79301b70d05a06943bae46ccca642b5c7c028abb78e26426f826");
    let listing = vec![child("b.txt", b), child("a.txt", a)];
    assert_eq!(
        hex(&hash_directory(&listing, true)),
        "64f3e8de1aa25ccfbe2d55671bff1b243e2539775d28872d126fdb7aa3b16a90"
    );
    assert_eq!(
        hex(&hash_directory(&listing, false)),
        "e89dbeaab3b61a5b708c15c7218378a99a3ca0626ac98af1bb2d7983e5ba3579"
    );
}

#[test]
fn directory_digest_ignores_listing_order() {
    let entries = vec![
        child("zeta", hash_block(b"1")),
        child("alpha", hash_block(b"2")),
        child("mu", hash_block(b"3")),
        child("alphabet", hash_block(b"4")),
    ];
    let mut reversed = entries.clone();
    reversed.reverse();
    let mut rotated = entries.clone();
    rotated.rotate_left(2);
    for names in [true, false] {
        let d = hash_directory(&entries, names);
        assert_eq!(d, hash_directory(&reversed, names));
        assert_eq!(d, hash_directory(&rotated, names));
    }
}

#[test]
fn empty_directory_digest() {
    assert_eq!(hex(&hash_directory(&Vec::new(), true)), EMPTY_DIGEST);
}

#[test]
fn sort_children_is_stable_by_name() {
    let entries = vec![
        child("b", [1; 32]),
        child("a", [2; 32]),
        child("b", [3; 32]),
        child("ab", [4; 32]),
        child("", [5; 32]),
    ];
    let sorted = sort_children(&entries);
    let order: Vec<(String, u8)> = sorted.iter().map(|(n, d)| (n.clone(), d[0])).collect();
    assert_eq!(
        order,
        vec![
            ("".to_string(), 5),
            ("a".to_string(), 2),
            ("ab".to_string(), 4),
            ("b".to_string(), 1),
            ("b".to_string(), 3),
        ]
    );
}

#[test]
fn names_compare_as_bytes() {
    assert!(bytes_le(b"a", b"b"));
    assert!(!bytes_le(b"b", b"a"));
    assert!(bytes_le(b"ab", b"abc"));
    assert!(!bytes_le(b"abc", b"ab"));
    assert!(bytes_le(b"", b""));
    assert!(bytes_le(b"Z", b"a"));
    assert!(bytes_le("z".as_bytes(), "é".as_bytes()));
    assert!(!bytes_le("é".as_bytes(), "z".as_bytes()));
}

#[test]
fn tree_digest_composes() {
    let tree = Tree::Dir(vec![
        ("b.txt".to_string(), Tree::File(b"beta\n".to_vec())),
        ("sub".to_string(), Tree::Dir(vec![("c.txt".to_string(), Tree::File(Vec::new()))])),
        ("a.txt".to_string(), Tree::File(b"alpha\n".to_vec())),
    ]);
    assert_eq!(
        hex(&hash_tree(&tree, 4, true)),
        "5442e26ffcea6cb1c7da9b3827f2be62a521df08a4f43fd93083bac3387331f7"
    );
    assert_eq!(
        hex(&hash_tree(&tree, 4, false)),
        "1ddcc83cc382216a72813a4e926afdd2a4a560d9e17ca56f646221d40ce33ecf"
    );
    assert_eq!(hash_tree(&Tree::File(b"hello world".to_vec()), 4, true), hash_file_contents(b"hello world", 4));
    assert_eq!(hex(&hash_tree(&Tree::Dir(Vec::new()), 4, true)), EMPTY_DIGEST);
}

#[test]
fn tree_digest_ignores_listing_order_at_every_level() {
    let first = Tree::Dir(vec![
        ("b.txt".to_string(), Tree::File(b"beta\n".to_vec())),
        (
            "sub".to_string(),
            Tree::Dir(vec![
                ("d".to_string(), Tree::File(b"delta".to_vec())),
                ("c.txt".to_string(), Tree::File(Vec::new())),
            ]),
        ),
        ("a.txt".to_string(), Tree::File(b"alpha\n".to_vec())),
    ]);
    let second = Tree::Dir(vec![
        (
            "sub".to_string(),
            Tree::Dir(vec![
                ("c.txt".to_string(), Tree::File(Vec::new())),
                ("d".to_string(), Tree::File(b"delta".to_vec())),
            ]),
        ),
        ("a.txt".to_string(), Tree::File(b"alpha\n".to_vec())),
        ("b.txt".to_string(), Tree::File(b"beta\n".to_vec())),
    ]);
    for names in [true, false] {
        assert_eq!(hash_tree(&first, 3, names), hash_tree(&second, 3, names));
    }
}

#[test]
fn hasher_takes_input_in_pieces() {
    let mut hasher = Sha256Hasher::empty();
    hasher.update(b"a");
    hasher.update(b"");
    hasher.update(b"bc");
    assert_eq!(
        hex(&finish_sha256(hasher)),
        "ba7816bf8f01cfea414140de5dae2223b00361a396177a9cb410ff61f20015ad"
    );
}

#[test]
fn blocks_read_and_hashed_apart_give_file_digest() {
    let data = b"the quick brown fox jumps over the lazy dog";
    let mut offset = 0;
    let mut digests = Vec::new();
    loop {
        let mut reader = BlockReader::new(6);
        loop {
            let take = reader.room().min(data.len() - offset).min(4);
            let more = reader.fill(&data[offset..offset + take]);
            offset += take;
            if !more {
                break;
            }
        }
        match reader.finish() {
            Some(block) => digests.push(hash_block(&block)),
            None => break,
        }
    }
    assert_eq!(hash_block_digests(&digests), hash_file_contents(data, 6));
}
