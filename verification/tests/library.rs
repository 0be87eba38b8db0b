use mog::branch::{check_create, check_delete, check_force_delete, check_rename, validate_branch_name};
use mog::cache::{ObjectCache, CACHE_MAX_BYTES};
use mog::checkout::{checkout_index, paths_to_delete};
use mog::commit::{commit, HeadUpdate};
use mog::discard::{discard_action, DiscardAction};
use mog::error::Error;
use mog::hash::{hash_bytes, hash_eq, hash_to_hex, hex_to_hash};
use mog::hash_object::hash_object;
use mog::ignore::{Ignore, SimpleGlob};
use mog::index::{FakeMeta, FileMeta, Index};
use mog::log::log;
use mog::object::{
    decode_blob_bytes, decode_commit_record, decode_tree_entries, encode_blob_and_hash,
    encode_blob_into, Object, ObjectTag, MODE_DIR, MODE_EXEC, MODE_FILE,
};
use mog::patterns::{combine_patterns, matching_index_paths, path_selected};
use mog::refs::{current_branch, head_content, parse_head, parse_ref, ref_content, Head};
use mog::repository::Repository;
use mog::stage::{
    flush_batch, missing_paths, needs_staging, plan_batches, process_file, unstage_paths,
    StageDecision,
};
use mog::stash::{
    dirty_entries, parse_dirty, shift_stash_refs_down_from, shift_stash_refs_up, stash_entries,
    stash_message,
};
use mog::status::{
    collect_status, flatten_tree, sorted_paths, split_staged, FlatTreeBuilder, SortedFlatTree,
};
use mog::storage::{MogStorage, PendingStorageWrite, Storage};
use mog::tree::{Tree, TreeEntry};
use mog::tree_builder::TreeBuilder;
use mog::wire::{
    u32_from_le_bytes, u32_to_le_bytes, u64_from_le_bytes, u64_to_le_bytes, ReadCursor, WriteCursor,
};

fn meta(mtime: i64, size: u64) -> FakeMeta {
    FakeMeta { mtime, size }
}

fn entry(mode: u32, hash: [u8; 32], name: &str) -> TreeEntry {
    TreeEntry { mode, hash, name: name.to_string() }
}

fn blob_record(data: &[u8]) -> Vec<u8> {
    let mut v = b"VX01".to_vec();
    v.push(0x01);
    v.extend_from_slice(&(data.len() as u64).to_le_bytes());
    v.extend_from_slice(data);
    v
}

fn tree_record_one(mode: u32, hash: &[u8; 32], name: &str) -> Vec<u8> {
    let mut v = b"VX01".to_vec();
    v.push(0x02);
    v.extend_from_slice(&1u32.to_le_bytes());
    v.extend_from_slice(&mode.to_le_bytes());
    v.extend_from_slice(hash);
    v.extend_from_slice(&0u32.to_le_bytes());
    v.extend_from_slice(&(name.len() as u32).to_le_bytes());
    v.extend_from_slice(name.as_bytes());
    v
}

// hash

#[test]
fn hash_of_empty_input_is_the_blake3_vector() {
    let h = hash_bytes(b"");
    assert_eq!(
        hash_to_hex(&h),
        "af1349b9f5f9a1a6a0404dea36dcc9499bcb25c9adc112b7cc9a93cae41f3262"
    );
}

#[test]
fn hash_bytes_agrees_with_blake3() {
    let data = b"the quick brown fox";
    let expected: [u8; 32] = blake3::hash(data).into();
    assert_eq!(hash_bytes(data), expected);
    assert_ne!(hash_bytes(b"a"), hash_bytes(b"b"));
}

#[test]
fn hex_is_lowercase_two_digits_per_byte() {
    let mut h = [0u8; 32];
    h[0] = 0x0f;
    h[1] = 0xa0;
    h[31] = 0xff;
    let hex = hash_to_hex(&h);
    assert_eq!(hex.len(), 64);
    assert!(hex.starts_with("0fa0"));
    assert!(hex.ends_with("00ff"));
}

#[test]
fn hex_round_trip_and_case() {
    let h = hash_bytes(b"round trip");
    let hex = hash_to_hex(&h);
    assert_eq!(hex_to_hash(&hex), Ok(h));
    assert_eq!(hex_to_hash(&hex.to_uppercase()), Ok(h));
}

#[test]
fn hex_of_wrong_length_or_digits_is_invalid_input() {
    assert_eq!(hex_to_hash(""), Err(Error::InvalidInput));
    assert_eq!(hex_to_hash("abcd"), Err(Error::InvalidInput));
    assert_eq!(hex_to_hash(&"0".repeat(63)), Err(Error::InvalidInput));
    assert_eq!(hex_to_hash(&"0".repeat(66)), Err(Error::InvalidInput));
    assert_eq!(hex_to_hash(&"g".repeat(64)), Err(Error::InvalidInput));
}

#[test]
fn hash_eq_compares_every_byte() {
    let a = [7u8; 32];
    let mut b = [7u8; 32];
    assert!(hash_eq(&a, &b));
    b[31] = 8;
    assert!(!hash_eq(&a, &b));
}

// wire

#[test]
fn write_cursor_layout_is_little_endian() {
    let mut buf = Vec::new();
    {
        let mut w = WriteCursor::new(&mut buf);
        w.write_u32(0x01020304);
        w.write_u64(0x0102030405060708);
        w.write_i64(-2);
        w.write_hash(&[0xaa; 32]);
        w.write_len_prefixed_str("hi");
        w.write_len_prefixed_bytes(b"");
    }
    let mut expected = vec![4, 3, 2, 1, 8, 7, 6, 5, 4, 3, 2, 1];
    expected.extend_from_slice(&[0xfe, 0xff, 0xff, 0xff, 0xff, 0xff, 0xff, 0xff]);
    expected.extend_from_slice(&[0xaa; 32]);
    expected.extend_from_slice(&[2, 0, 0, 0, b'h', b'i']);
    expected.extend_from_slice(&[0, 0, 0, 0]);
    assert_eq!(buf, expected);
}

#[test]
fn read_cursor_reads_back_what_was_written() {
    let mut buf = Vec::new();
    {
        let mut w = WriteCursor::new(&mut buf);
        w.write_u32(7);
        w.write_i64(i64::MIN);
        w.write_u64(u64::MAX);
        w.write_hash(&[3; 32]);
        w.write_len_prefixed_str("author");
        w.write_slice(b"xyz");
    }
    let mut r = ReadCursor::new(&buf);
    assert_eq!(r.read_u32(), Ok(7));
    assert_eq!(r.read_i64(), Ok(i64::MIN));
    assert_eq!(r.read_u64(), Ok(u64::MAX));
    assert_eq!(r.read_hash(), Ok([3; 32]));
    assert_eq!(r.read_len_prefixed_str(), Ok("author"));
    assert!(!r.at_end());
    assert_eq!(r.remaining(), b"xyz");
    assert_eq!(r.read_bytes(3), Ok(&b"xyz"[..]));
    assert!(r.at_end());
}

#[test]
fn read_cursor_fails_on_short_input() {
    let data = [1u8, 2, 3];
    let mut r = ReadCursor::new(&data);
    assert_eq!(r.read_u32(), Err(Error::CorruptObjectDatabase));
    assert_eq!(r.read_u64(), Err(Error::CorruptObjectDatabase));
    assert_eq!(r.read_hash(), Err(Error::CorruptObjectDatabase));
    assert_eq!(r.read_bytes(4), Err(Error::CorruptObjectDatabase));
    assert_eq!(r.read_bytes(3), Ok(&data[..]));
    let short = [5u8, 0, 0, 0, b'a'];
    let mut r = ReadCursor::new(&short);
    assert_eq!(r.read_len_prefixed_bytes(), Err(Error::CorruptObjectDatabase));
}

#[test]
fn read_len_prefixed_str_rejects_invalid_utf8() {
    let data = [2u8, 0, 0, 0, 0xff, 0xfe];
    let mut r = ReadCursor::new(&data);
    assert_eq!(r.read_len_prefixed_str(), Err(Error::CorruptObjectDatabase));
}

// object codec

#[test]
fn blob_record_has_magic_tag_length_and_bytes() {
    let mut buf = vec![9, 9, 9];
    encode_blob_into(b"hello", &mut buf);
    assert_eq!(buf, blob_record(b"hello"));
    assert_eq!(
        buf,
        vec![b'V', b'X', b'0', b'1', 1, 5, 0, 0, 0, 0, 0, 0, 0, b'h', b'e', b'l', b'l', b'o']
    );
    let mut buf2 = Vec::new();
    let h = encode_blob_and_hash(b"hello", &mut buf2);
    assert_eq!(buf2, buf);
    assert_eq!(h, hash_bytes(&buf));
}

#[test]
fn blob_decoding_is_strict() {
    assert_eq!(decode_blob_bytes(&blob_record(b"")), Ok(&b""[..]));
    assert_eq!(decode_blob_bytes(&blob_record(b"x")), Ok(&b"x"[..]));
    let mut trailing = blob_record(b"x");
    trailing.push(0);
    assert_eq!(decode_blob_bytes(&trailing), Err(Error::CorruptObjectDatabase));
    let mut cut = blob_record(b"xyz");
    cut.pop();
    assert_eq!(decode_blob_bytes(&cut), Err(Error::CorruptObjectDatabase));
    assert_eq!(decode_blob_bytes(b"VX0"), Err(Error::CorruptObjectDatabase));
    assert_eq!(decode_blob_bytes(b"XXXX\x01"), Err(Error::CorruptObjectDatabase));
    assert_eq!(decode_blob_bytes(b"VX01\x03"), Err(Error::CorruptObjectDatabase));
}

#[test]
fn decoding_as_another_kind_is_a_type_mismatch() {
    let tree = tree_record_one(MODE_FILE, &[1; 32], "a");
    assert_eq!(decode_blob_bytes(&tree), Err(Error::TypeMismatch));
    assert!(matches!(decode_tree_entries(&blob_record(b"x")), Err(Error::TypeMismatch)));
    assert!(matches!(decode_commit_record(&tree), Err(Error::TypeMismatch)));
}

#[test]
fn tree_record_layout() {
    let mut repo = Repository::new_mock();
    let h = [0x11u8; 32];
    let id = repo.stores.tree.push(&[entry(MODE_FILE, h, "a.txt")]);
    let mut buf = Vec::new();
    repo.stores.encode_object_into(Object::Tree(id), &mut buf);
    assert_eq!(buf, tree_record_one(MODE_FILE, &h, "a.txt"));
    let entries = decode_tree_entries(&buf).unwrap();
    assert_eq!(entries.len(), 1);
    assert_eq!(entries[0].name, "a.txt");
    assert_eq!(entries[0].hash, h);
    assert_eq!(entries[0].mode, 0o100644);
}

#[test]
fn tree_with_two_entries_packs_names() {
    let mut b = TreeBuilder::new();
    b.add(MODE_DIR, [1; 32], "src");
    b.add(MODE_EXEC, [2; 32], "run.sh");
    let tree = b.build();
    assert_eq!(tree.count(), 2);
    assert_eq!(tree.get_name(0), "src");
    assert_eq!(tree.get_name(1), "run.sh");
    assert_eq!(tree.name_offsets, vec![0, 3]);
    assert_eq!(tree.find_in_tree("run.sh"), Some([2; 32]));
    assert_eq!(tree.find_in_tree("nope"), None);
    let mut buf = Vec::new();
    tree.encode_into(&mut buf);
    let back = Tree::decode(&buf).unwrap();
    assert_eq!(back.modes, vec![MODE_DIR, MODE_EXEC]);
    assert_eq!(back.names_blob, b"srcrun.sh".to_vec());
    let mut it = tree.iter();
    assert_eq!(it.next().unwrap().name, "src");
    assert_eq!(it.next().unwrap().into_entry().name, "run.sh");
    assert!(it.next().is_none());
}

#[test]
fn tree_decoding_rejects_what_is_no_payload() {
    let good = tree_record_one(MODE_FILE, &[1; 32], "ab");
    let payload = &good[5..];
    assert!(Tree::decode(payload).is_ok());
    // a byte too many
    let mut more = payload.to_vec();
    more.push(0);
    assert!(matches!(Tree::decode(&more), Err(Error::CorruptObjectDatabase)));
    // a byte too few
    assert!(matches!(Tree::decode(&payload[..payload.len() - 1]), Err(Error::CorruptObjectDatabase)));
    // the first name does not start at 0
    let mut shifted = payload.to_vec();
    shifted[4 + 4 + 32] = 1;
    assert!(matches!(Tree::decode(&shifted), Err(Error::CorruptObjectDatabase)));
    // a name that is no UTF-8
    let mut bad = payload.to_vec();
    let n = bad.len();
    bad[n - 1] = 0xff;
    assert!(matches!(Tree::decode(&bad), Err(Error::CorruptObjectDatabase)));
    assert!(matches!(Tree::decode(&[]), Err(Error::CorruptObjectDatabase)));
}

#[test]
fn empty_tree_is_a_count_and_a_length() {
    let tree = TreeBuilder::new().build();
    let mut buf = Vec::new();
    tree.encode_into(&mut buf);
    assert_eq!(buf, vec![0, 0, 0, 0, 0, 0, 0, 0]);
    assert_eq!(Tree::decode(&buf).unwrap().count(), 0);
}

#[test]
fn commit_record_layout() {
    let mut repo = Repository::new_mock();
    let tree = [0x22u8; 32];
    let parent = [0x33u8; 32];
    let id = repo.stores.commit.push(tree, &[parent], -5, "me", "msg");
    let mut buf = Vec::new();
    repo.stores.encode_object_into(Object::Commit(id), &mut buf);
    let mut expected = b"VX01".to_vec();
    expected.push(0x04);
    expected.extend_from_slice(&tree);
    expected.extend_from_slice(&1u32.to_le_bytes());
    expected.extend_from_slice(&parent);
    expected.extend_from_slice(&(-5i64).to_le_bytes());
    expected.extend_from_slice(&2u32.to_le_bytes());
    expected.extend_from_slice(b"me");
    expected.extend_from_slice(&3u32.to_le_bytes());
    expected.extend_from_slice(b"msg");
    assert_eq!(buf, expected);
    let c = decode_commit_record(&buf).ok().unwrap();
    assert_eq!(c.tree, tree);
    assert_eq!(c.parents, vec![parent]);
    assert_eq!(c.timestamp, -5);
    assert_eq!(c.author, "me");
    assert_eq!(c.message, "msg");
    let mut trailing = expected.clone();
    trailing.push(1);
    assert!(matches!(decode_commit_record(&trailing), Err(Error::CorruptObjectDatabase)));
}

#[test]
fn objects_round_trip_through_the_stores() {
    let mut repo = Repository::new_mock();
    let b = repo.stores.blob.push(b"bytes");
    let t = repo.stores.tree.push(&[entry(MODE_FILE, [1; 32], "f"), entry(MODE_DIR, [2; 32], "d")]);
    let parents: Vec<[u8; 32]> = (0..8u8).map(|i| [i; 32]).collect();
    let c = repo.stores.commit.push([9; 32], &parents, 42, "", "octopus");
    for obj in [Object::Blob(b), Object::Tree(t), Object::Commit(c)] {
        let mut buf = Vec::new();
        repo.stores.encode_object_into(obj, &mut buf);
        let back = repo.stores.decode_and_push_object(&buf).unwrap();
        let mut again = Vec::new();
        repo.stores.encode_object_into(back, &mut again);
        assert_eq!(buf, again);
        assert_ne!(back, obj);
    }
    assert_eq!(repo.stores.blob.get(mog::store::BlobId(1)), b"bytes");
    assert_eq!(repo.stores.commit.get_parents(mog::store::CommitId(1)), &parents[..]);
    assert_eq!(repo.stores.tree.entry_count(mog::store::TreeId(1)), 2);
}

#[test]
fn object_handles_know_their_kind() {
    let obj = Object::Tree(mog::store::TreeId(3));
    assert_eq!(obj.try_as_tree_id(), Ok(mog::store::TreeId(3)));
    assert_eq!(obj.try_as_blob_id(), Err(Error::TypeMismatch));
    assert_eq!(obj.try_as_commit_id(), Err(Error::TypeMismatch));
    assert_eq!(ObjectTag::from_byte(1), Some(ObjectTag::Blob));
    assert_eq!(ObjectTag::from_byte(2), Some(ObjectTag::Tree));
    assert_eq!(ObjectTag::from_byte(4), Some(ObjectTag::Commit));
    assert_eq!(ObjectTag::from_byte(0), None);
    assert_eq!(ObjectTag::from_byte(3), None);
    assert_eq!(ObjectTag::Commit.as_byte(), 4);
}

#[test]
fn corrupt_records_are_not_decoded_into_stores() {
    let mut repo = Repository::new_mock();
    assert_eq!(repo.stores.decode_and_push_object(b"junk"), Err(Error::CorruptObjectDatabase));
    assert_eq!(repo.stores.decode_and_push_object(b"VX01\x01\x01"), Err(Error::CorruptObjectDatabase));
    assert_eq!(repo.stores.blob.lengths.len(), 0);
}

// the first scenario: one file, staged and committed

#[test]
fn committed_tree_hash_is_the_digest_of_the_canonical_tree() {
    let mut repo = Repository::new_mock();
    let mut index = Index::default();
    let blob = repo.write_blob(b"hello");
    let blob_expected: [u8; 32] = blake3::hash(&blob_record(b"hello")).into();
    assert_eq!(blob, blob_expected);
    index.add("a.txt", blob, &meta(1, 5));
    let root = index.write_tree(&mut repo).unwrap();
    let tree_expected: [u8; 32] =
        blake3::hash(&tree_record_one(MODE_FILE, &blob_expected, "a.txt")).into();
    assert_eq!(root, tree_expected);
    let (hash, update) =
        commit(&mut repo, root, None, 1000, "author", "first", "ref: refs/heads/main\n").ok().unwrap();
    match update {
        HeadUpdate::Ref { path, content } => {
            assert_eq!(path, "refs/heads/main");
            assert_eq!(content, format!("{}\n", hash_to_hex(&hash)));
        }
        HeadUpdate::Head { .. } => panic!("HEAD is symbolic"),
    }
    let entries = log(&repo, hash, 10).ok().unwrap();
    assert_eq!(entries.len(), 1);
    assert_eq!(entries[0].commit.message, "first");
    assert_eq!(entries[0].commit.tree, root);
    assert!(entries[0].commit.parents.is_empty());
}

#[test]
fn commit_on_a_detached_head_rewrites_head() {
    let mut repo = Repository::new_mock();
    let parent = [5u8; 32];
    let (hash, update) =
        commit(&mut repo, [1; 32], Some(parent), 7, "a", "m", &format!("{}\n", "ab".repeat(32))).ok().unwrap();
    assert!(repo.storage.contains(&hash));
    match update {
        HeadUpdate::Head { content } => assert_eq!(content, format!("{}\n", hash_to_hex(&hash))),
        HeadUpdate::Ref { .. } => panic!("HEAD is detached"),
    }
    let c = mog::log::read_commit(&repo, &hash).ok().unwrap();
    assert_eq!(c.parents, vec![parent]);
    assert_eq!(c.timestamp, 7);
}

// dedup: two files with the same content

#[test]
fn identical_files_share_one_blob_and_add_one_tree() {
    let mut repo = Repository::new_mock();
    let payload = vec![0x5au8; 1024];
    let before = repo.storage.object_count();
    let ha = repo.write_blob(&payload);
    let hb = repo.write_blob(&payload);
    assert_eq!(ha, hb);
    let mut index = Index::default();
    index.add("a", ha, &meta(1, 1024));
    index.add("b", hb, &meta(1, 1024));
    index.write_tree(&mut repo).unwrap();
    assert_eq!(repo.storage.object_count(), before + 2);
}

// index

#[test]
fn index_file_layout() {
    let mut index = Index::default();
    index.add("b", [2; 32], &FileMeta { mtime: -1, size: 3, executable: true });
    index.add("a/c", [1; 32], &meta(9, 4));
    let bytes = index.encode();
    let mut expected = b"MOGG".to_vec();
    expected.extend_from_slice(&1u32.to_le_bytes());
    expected.extend_from_slice(&2u32.to_le_bytes());
    expected.extend_from_slice(&MODE_EXEC.to_le_bytes());
    expected.extend_from_slice(&MODE_FILE.to_le_bytes());
    expected.extend_from_slice(&[2; 32]);
    expected.extend_from_slice(&[1; 32]);
    expected.extend_from_slice(&(-1i64).to_le_bytes());
    expected.extend_from_slice(&9i64.to_le_bytes());
    expected.extend_from_slice(&3u64.to_le_bytes());
    expected.extend_from_slice(&4u64.to_le_bytes());
    expected.extend_from_slice(&0u32.to_le_bytes());
    expected.extend_from_slice(&1u32.to_le_bytes());
    expected.extend_from_slice(&4u32.to_le_bytes());
    expected.extend_from_slice(b"ba/c");
    assert_eq!(bytes, expected);
    assert_eq!(bytes.len(), 12 + 2 * 56 + 4 + 4);
    let back = Index::decode(&bytes).ok().unwrap();
    assert_eq!(back.count, 2);
    assert_eq!(back.modes, index.modes);
    assert_eq!(back.mtimes, vec![-1, 9]);
    assert_eq!(back.sizes, vec![3, 4]);
    assert_eq!(back.get_path(1), "a/c");
    assert_eq!(back.find("b"), Some(0));
    assert_eq!(back.encode(), bytes);
}

#[test]
fn corrupt_index_files_are_refused() {
    let mut index = Index::default();
    index.add("x", [2; 32], &meta(1, 1));
    index.add("y", [3; 32], &meta(2, 2));
    let good = index.encode();
    assert!(Index::decode(&good).is_ok());
    let corrupt = |bytes: &[u8]| matches!(Index::decode(bytes), Err(Error::CorruptIndex));
    assert!(corrupt(&[]));
    assert!(corrupt(&good[..11]));
    let mut magic = good.clone();
    magic[0] = b'X';
    assert!(corrupt(&magic));
    let mut version = good.clone();
    version[4] = 2;
    assert!(corrupt(&version));
    let mut count = good.clone();
    count[8] = 3;
    assert!(corrupt(&count));
    let mut trailing = good.clone();
    trailing.push(0);
    assert!(corrupt(&trailing));
    assert!(corrupt(&good[..good.len() - 1]));
    // both entries with the same path
    let mut twice = good.clone();
    let n = twice.len();
    twice[n - 1] = b'x';
    assert!(corrupt(&twice));
    // a path that is no UTF-8
    let mut bad = good.clone();
    bad[n - 1] = 0xff;
    assert!(corrupt(&bad));
}

#[test]
fn index_add_replaces_and_remove_shifts() {
    let mut index = Index::default();
    index.add("a", [1; 32], &meta(1, 1));
    index.add("b", [2; 32], &meta(2, 2));
    index.add("c", [3; 32], &meta(3, 3));
    index.add("b", [9; 32], &FileMeta { mtime: 5, size: 6, executable: true });
    assert_eq!(index.count, 3);
    assert_eq!(index.find("b"), Some(1));
    assert_eq!(index.hashes[1], [9; 32]);
    assert_eq!(index.modes[1], MODE_EXEC);
    assert_eq!(index.mtimes[1], 5);
    assert!(index.remove("a"));
    assert!(!index.remove("a"));
    assert_eq!(index.find("b"), Some(0));
    assert_eq!(index.find("c"), Some(1));
    assert_eq!(index.get_path(1), "c");
    assert_eq!(index.paths_blob, b"bc".to_vec());
    let mut it = index.iter();
    let first = it.next().unwrap();
    assert_eq!((first.path, *first.hash, first.size), ("b", [9; 32], 6));
    assert_eq!(it.next().unwrap().path, "c");
    assert!(it.next().is_none());
}

#[test]
fn write_tree_does_not_depend_on_the_order_of_adds() {
    let files = [("src/b.rs", 1u8), ("a.txt", 2), ("src/deep/c.rs", 3), ("src/a.rs", 4), ("z", 5)];
    let mut repo1 = Repository::new_mock();
    let mut repo2 = Repository::new_mock();
    let mut forward = Index::default();
    let mut backward = Index::default();
    for (p, b) in files.iter() {
        forward.add(p, [*b; 32], &meta(1, 1));
    }
    for (p, b) in files.iter().rev() {
        backward.add(p, [*b; 32], &meta(2, 2));
    }
    let h1 = forward.write_tree(&mut repo1).unwrap();
    let h2 = backward.write_tree(&mut repo2).unwrap();
    assert_eq!(h1, h2);
    // three directories: the root, src and src/deep
    assert_eq!(repo1.storage.object_count(), 3);
    let root = decode_tree_entries(repo1.storage.read(&h1).unwrap()).unwrap();
    let names: Vec<&str> = root.iter().map(|e| e.name.as_str()).collect();
    assert_eq!(names, vec!["a.txt", "src", "z"]);
    assert_eq!(root[1].mode, MODE_DIR);
    let src = decode_tree_entries(repo1.storage.read(&root[1].hash).unwrap()).unwrap();
    let names: Vec<&str> = src.iter().map(|e| e.name.as_str()).collect();
    assert_eq!(names, vec!["a.rs", "b.rs", "deep"]);
}

#[test]
fn write_tree_of_an_empty_index_is_the_empty_tree() {
    let mut repo = Repository::new_mock();
    let h = Index::default().write_tree(&mut repo).unwrap();
    let mut record = b"VX01".to_vec();
    record.push(2);
    record.extend_from_slice(&[0; 8]);
    assert_eq!(h, hash_bytes(&record));
}

// flat tree

#[test]
fn flatten_lists_every_blob_with_its_path() {
    let mut repo = Repository::new_mock();
    let mut index = Index::default();
    let paths = ["top.rs", "dir/one", "dir/sub/two", "dir/sub/three", "other/x y.txt"];
    for (i, p) in paths.iter().enumerate() {
        index.add(p, [i as u8 + 1; 32], &meta(1, 1));
    }
    let root = index.write_tree(&mut repo).unwrap();
    let flat = flatten_tree(&repo, root).ok().unwrap();
    assert_eq!(flat.len(), paths.len());
    assert!(flat.has_distinct_paths());
    for (i, p) in paths.iter().enumerate() {
        assert_eq!(flat.lookup(p), Some([i as u8 + 1; 32]));
    }
    assert_eq!(flat.lookup("dir"), None);
    assert_eq!(flat.lookup("dir/sub"), None);
    assert_eq!(flat.lookup("dir/sub/tw"), None);
    assert_eq!(flat.lookup("top.rs/"), None);
    let sorted: Vec<&str> = flat.sorted_order.iter().map(|&i| flat.get_path(i)).collect();
    assert_eq!(sorted, vec!["dir/one", "dir/sub/three", "dir/sub/two", "other/x y.txt", "top.rs"]);
}

#[test]
fn flatten_fails_where_a_tree_cannot_be_read() {
    let mut repo = Repository::new_mock();
    assert!(matches!(flatten_tree(&repo, [1; 32]), Err(Error::NotFound)));
    let blob = repo.write_blob(b"no tree");
    assert!(matches!(flatten_tree(&repo, blob), Err(Error::TypeMismatch)));
    let id = repo.stores.tree.push(&[entry(MODE_DIR, [7; 32], "gone")]);
    let root = repo.write_object(Object::Tree(id));
    assert!(matches!(flatten_tree(&repo, root), Err(Error::NotFound)));
    repo.storage.write([8; 32], b"garbage".to_vec());
    assert!(matches!(flatten_tree(&repo, [8; 32]), Err(Error::CorruptObjectDatabase)));
}

#[test]
fn flat_tree_with_a_path_twice_is_not_distinct() {
    let mut b = FlatTreeBuilder::new();
    b.push("same", [1; 32]);
    b.push("other", [2; 32]);
    b.push("same", [3; 32]);
    let flat = b.build();
    assert!(!flat.has_distinct_paths());
    assert!(SortedFlatTree::default().has_distinct_paths());
}

#[test]
fn resolve_path_walks_components() {
    let mut repo = Repository::new_mock();
    let mut index = Index::default();
    index.add("a/b/c.txt", [1; 32], &meta(1, 1));
    index.add("a/d.txt", [2; 32], &meta(1, 1));
    let root = index.write_tree(&mut repo).unwrap();
    assert_eq!(repo.resolve_path(&root, "a/b/c.txt"), Ok([1; 32]));
    assert_eq!(repo.resolve_path(&root, "/a//d.txt/"), Ok([2; 32]));
    assert_eq!(repo.resolve_path(&root, ""), Err(Error::InvalidInput));
    assert_eq!(repo.resolve_path(&root, "///"), Err(Error::InvalidInput));
    assert_eq!(repo.resolve_path(&root, "a/x"), Err(Error::NotFound));
    assert_eq!(repo.resolve_path(&root, "missing/x"), Err(Error::NotFound));
    let dir = repo.resolve_path(&root, "a/b").unwrap();
    let (obj, hash) = repo.walk_tree_path(&root, "a/b").ok().unwrap();
    assert_eq!(hash, dir);
    assert!(obj.try_as_tree_id().is_ok());
    // the blob hashes of this index name no stored objects
    assert!(matches!(repo.walk_tree_path(&root, "a/d.txt"), Err(Error::NotFound)));
}

// storage

#[test]
fn storage_shows_writes_after_a_flush() {
    let mut s = Storage::create_new();
    let h = hash_bytes(b"record");
    assert!(!s.contains(&h));
    s.write(h, b"record".to_vec());
    assert!(!s.contains(&h));
    assert!(matches!(s.read(&h), Err(Error::NotFound)));
    assert_eq!(s.flush(), Ok(()));
    assert!(s.contains(&h));
    assert_eq!(s.read(&h), Ok(&b"record"[..]));
    assert_eq!(s.object_count(), 1);
}

#[test]
fn storage_drops_duplicates() {
    let mut s = Storage::create_new();
    let h = hash_bytes(b"same");
    s.write(h, b"same".to_vec());
    s.write(h, b"same".to_vec());
    s.flush().unwrap();
    s.write(h, b"same".to_vec());
    s.flush().unwrap();
    assert_eq!(s.object_count(), 1);
    let batch = vec![
        PendingStorageWrite { hash: h, data: b"same".to_vec() },
        PendingStorageWrite { hash: [1; 32], data: b"one".to_vec() },
        PendingStorageWrite { hash: [1; 32], data: b"other".to_vec() },
    ];
    assert_eq!(s.write_batch(&batch), Ok(()));
    assert_eq!(s.object_count(), 2);
    assert_eq!(s.read(&[1; 32]), Ok(&b"one"[..]));
}

#[test]
fn storage_probes_past_taken_buckets() {
    let mut s = Storage::create_new();
    // the same low 64 bits: the same first bucket
    let mut hashes = Vec::new();
    for i in 0..5u8 {
        let mut h = [0u8; 32];
        h[0] = 7;
        h[31] = i;
        hashes.push(h);
    }
    for (i, h) in hashes.iter().enumerate() {
        s.write(*h, vec![i as u8; i + 1]);
    }
    s.flush().unwrap();
    for (i, h) in hashes.iter().enumerate() {
        assert_eq!(s.read(h), Ok(&vec![i as u8; i + 1][..]));
    }
    let mut absent = [0u8; 32];
    absent[0] = 7;
    absent[31] = 99;
    assert!(!s.contains(&absent));
}

#[test]
fn storage_file_layout_and_reopen() {
    let mut s = Storage::create_new();
    let empty = s.to_image();
    assert_eq!(empty.len(), 128 + (1 << 21) * 8);
    assert_eq!(&empty[0..4], b"VXOB");
    assert_eq!(&empty[4..8], &1u32.to_le_bytes());
    assert_eq!(&empty[8..16], &0u64.to_le_bytes());
    assert_eq!(&empty[16..24], &(128u64 + (1u64 << 21) * 8).to_le_bytes());
    assert!(empty[24..].iter().all(|&b| b == 0));

    let mut h = [0u8; 32];
    h[0] = 3;
    h[1] = 1;
    s.write(h, b"payload".to_vec());
    s.flush().unwrap();
    let image = s.to_image();
    let data_start = 128 + (1usize << 21) * 8;
    assert_eq!(image.len(), data_start + 32 + 4 + 7);
    assert_eq!(&image[8..16], &1u64.to_le_bytes());
    assert_eq!(&image[data_start..data_start + 32], &h);
    assert_eq!(&image[data_start + 32..data_start + 36], &7u32.to_le_bytes());
    assert_eq!(&image[data_start + 36..], b"payload");
    // bucket = low 64 bits modulo the number of buckets
    let bucket = (u64::from_le_bytes(h[..8].try_into().unwrap()) % (1 << 21)) as usize;
    assert_eq!(bucket, 0x103);
    assert_eq!(&image[128 + bucket * 8..128 + bucket * 8 + 8], &(data_start as u64).to_le_bytes());

    let reopened = Storage::open_existing(&image).ok().unwrap();
    assert_eq!(reopened.read(&h), Ok(&b"payload"[..]));
    assert_eq!(reopened.object_count(), 1);
    assert_eq!(reopened.to_image(), image);
}

#[test]
fn corrupt_database_files_are_refused() {
    let mut s = Storage::create_new();
    s.write([4; 32], b"abc".to_vec());
    s.flush().unwrap();
    let good = s.to_image();
    let corrupt = |bytes: &[u8]| matches!(Storage::open_existing(bytes), Err(Error::CorruptObjectDatabase));
    assert!(corrupt(&[]));
    assert!(corrupt(&good[..1000]));
    let mut magic = good.clone();
    magic[3] = b'X';
    assert!(corrupt(&magic));
    let mut version = good.clone();
    version[4] = 2;
    assert!(corrupt(&version));
    let mut start = good.clone();
    start[16] = 0;
    assert!(corrupt(&start));
    // a truncated record
    assert!(corrupt(&good[..good.len() - 1]));
    // a bucket that points outside the file
    let mut outside = good.clone();
    outside[128..136].copy_from_slice(&(good.len() as u64).to_le_bytes());
    assert!(corrupt(&outside));
    // a record in a bucket that its hash does not lead to
    let mut wrong = good.clone();
    let home = (u64::from_le_bytes([4; 8]) % (1 << 21)) as usize;
    let at = 128 + home * 8;
    let offset: [u8; 8] = wrong[at..at + 8].try_into().unwrap();
    wrong[at..at + 8].copy_from_slice(&[0; 8]);
    let elsewhere = 128 + ((home + 5) % (1 << 21)) * 8;
    wrong[elsewhere..elsewhere + 8].copy_from_slice(&offset);
    assert!(corrupt(&wrong));
}

#[test]
fn repository_over_the_file_storage() {
    let mut repo = Repository::new(Storage::create_new());
    let h = repo.write_blob(b"content");
    assert!(matches!(repo.read_object(&h), Err(Error::NotFound)));
    repo.storage.flush().unwrap();
    let obj = repo.read_object(&h).ok().unwrap();
    let id = obj.try_as_blob_id().unwrap();
    assert_eq!(repo.stores.blob.get(id), b"content");
    // now from the cache
    assert!(repo.object_cache.contains(&h));
    let again = repo.read_object(&h).ok().unwrap();
    assert_eq!(repo.stores.blob.get(again.try_as_blob_id().unwrap()), b"content");
    assert_eq!(repo.read_blob_bytes_without_touching_cache(&h), Ok(&b"content"[..]));
    assert_eq!(repo.read_blob_bytes_without_touching_stores(&h), Ok(&b"content"[..]));
    assert!(matches!(repo.read_tree_entries_without_touching_cache(&h), Err(Error::TypeMismatch)));
    assert!(matches!(repo.read_object_without_touching_cache(&[0; 32]), Err(Error::NotFound)));
}

#[test]
fn earlier_blobs_stay_readable() {
    let mut repo = Repository::new(Storage::create_new());
    let old = repo.write_blob(b"from the first commit");
    repo.storage.flush().unwrap();
    let image = repo.storage.to_image();
    for i in 0..20u8 {
        repo.write_blob(&[i; 100]);
        let id = repo.stores.commit.push([i; 32], &[], i as i64, "a", "later");
        repo.write_object(Object::Commit(id));
        repo.storage.flush().unwrap();
    }
    assert_eq!(repo.read_blob_bytes_without_touching_cache(&old), Ok(&b"from the first commit"[..]));
    // the record itself did not move
    let after = repo.storage.to_image();
    assert_eq!(&after[128 + (1 << 21) * 8..image.len()], &image[128 + (1 << 21) * 8..]);
}

// cache

#[test]
fn cache_evicts_the_oldest() {
    let mut cache = ObjectCache::new();
    let chunk = CACHE_MAX_BYTES / 4;
    for i in 0..4u8 {
        cache.insert([i; 32], vec![i; chunk]);
    }
    for i in 0..4u8 {
        assert!(cache.contains(&[i; 32]));
    }
    cache.insert([0; 32], vec![9; 10]);
    assert_eq!(cache.get(&[0; 32]).unwrap()[0], 0);
    cache.insert([4; 32], vec![4; 1]);
    assert!(!cache.contains(&[0; 32]));
    assert!(cache.contains(&[1; 32]));
    assert_eq!(cache.get(&[4; 32]), Some(&[4u8][..]));
    cache.insert([5; 32], vec![5; chunk * 2]);
    assert!(!cache.contains(&[1; 32]));
    assert!(!cache.contains(&[2; 32]));
    assert!(cache.contains(&[3; 32]));
    // what is larger than the cache empties it
    cache.insert([6; 32], vec![6; CACHE_MAX_BYTES + 1]);
    assert!(!cache.contains(&[6; 32]));
    assert!(!cache.contains(&[3; 32]));
    assert_eq!(cache.get(&[5; 32]), None);
    cache.insert([7; 32], vec![7; CACHE_MAX_BYTES]);
    assert!(cache.contains(&[7; 32]));
}

// status

#[test]
fn status_buckets_of_a_mixed_working_tree() {
    let mut repo = Repository::new_mock();
    let mut index = Index::default();
    for (p, b) in [("a", 1u8), ("b", 2), ("c", 3)] {
        index.add(p, [b; 32], &meta(10, 1));
    }
    let head_tree = index.write_tree(&mut repo).unwrap();
    let head = flatten_tree(&repo, head_tree).ok().unwrap();
    index.add("a", [9; 32], &meta(10, 1));
    index.add("d", [4; 32], &meta(10, 1));
    index.remove("c");
    // on disk everything is as the index has it
    let stats: Vec<Option<FileMeta>> =
        (0..index.count).map(|_| Some(FileMeta { mtime: 10, size: 1, executable: false })).collect();
    let walked: Vec<String> = ["a", "b", "d"].iter().map(|s| s.to_string()).collect();
    let buckets = collect_status(&index, &head, &stats, &walked, &Ignore::empty()).ok().unwrap();
    assert_eq!(buckets.staged_new_modified, vec!["a", "d"]);
    let (staged_new, staged_modified) = split_staged(&buckets.staged_new_modified, &head);
    assert_eq!(staged_new, vec!["d"]);
    assert_eq!(staged_modified, vec!["a"]);
    assert_eq!(buckets.staged_deleted, vec!["c"]);
    assert!(buckets.modified.is_empty());
    assert!(buckets.deleted.is_empty());
    assert!(buckets.untracked.is_empty());
}

#[test]
fn status_sees_the_disk() {
    let mut index = Index::default();
    index.add("z/kept", [1; 32], &meta(10, 1));
    index.add("changed", [2; 32], &meta(10, 1));
    index.add("gone", [3; 32], &meta(10, 1));
    index.add("bigger", [4; 32], &meta(10, 1));
    let clean = FileMeta { mtime: 10, size: 1, executable: false };
    let stats = vec![
        Some(clean),
        Some(FileMeta { mtime: 11, ..clean }),
        None,
        Some(FileMeta { size: 2, ..clean }),
    ];
    let walked: Vec<String> =
        ["z/kept", "new.txt", "", "build/out", "changed", "a.tmp", ".mog/index", "also new"]
            .iter()
            .map(|s| s.to_string())
            .collect();
    let ignore = Ignore::parse("/repo", Some("build/\n*.tmp\n"));
    let buckets =
        collect_status(&index, &SortedFlatTree::default(), &stats, &walked, &ignore).ok().unwrap();
    assert_eq!(buckets.staged_new_modified, vec!["bigger", "changed", "gone", "z/kept"]);
    assert!(buckets.staged_deleted.is_empty());
    assert_eq!(buckets.modified, vec!["bigger", "changed"]);
    assert_eq!(buckets.deleted, vec!["gone"]);
    assert_eq!(buckets.untracked, vec!["also new", "new.txt"]);
}

#[test]
fn sorted_paths_is_bytewise() {
    let paths: Vec<String> = ["b", "a/b", "a", "B", "a.b", "", "a"].iter().map(|s| s.to_string()).collect();
    assert_eq!(sorted_paths(&paths).ok().unwrap(), vec!["", "B", "a", "a", "a.b", "a/b", "b"]);
}

// stage

#[test]
fn dirty_gate_decides_from_stat_data() {
    let mut index = Index::default();
    index.add("f", [1; 32], &meta(100, 10));
    let same = FileMeta { mtime: 100, size: 10, executable: true };
    assert_eq!(needs_staging(&index, "f", &same), StageDecision::Unchanged);
    assert_eq!(needs_staging(&index, "f", &FileMeta { mtime: 101, ..same }), StageDecision::Stage);
    assert_eq!(needs_staging(&index, "f", &FileMeta { size: 11, ..same }), StageDecision::Stage);
    assert_eq!(needs_staging(&index, "g", &same), StageDecision::Stage);
    let limit = 1024 * 1024;
    assert_eq!(needs_staging(&index, "g", &FileMeta { size: limit, ..same }), StageDecision::Stage);
    assert_eq!(needs_staging(&index, "g", &FileMeta { size: limit + 1, ..same }), StageDecision::TooLarge);
    index.add("big", [2; 32], &meta(1, limit + 1));
    let big = FileMeta { mtime: 1, size: limit + 1, executable: false };
    assert_eq!(needs_staging(&index, "big", &big), StageDecision::TooLarge);
}

#[test]
fn batches_hold_at_most_a_mebibyte() {
    let m = 1024 * 1024u64;
    assert_eq!(plan_batches(&[]), vec![Vec::<usize>::new()]);
    assert_eq!(plan_batches(&[5]), vec![vec![0]]);
    assert_eq!(plan_batches(&[m, 1, m - 1, 1, 0]), vec![vec![0], vec![1, 2], vec![3, 4]]);
    assert_eq!(plan_batches(&[m / 2, m / 2, 0, 1]), vec![vec![0, 1, 2], vec![3]]);
    assert_eq!(plan_batches(&[0, 0, 0]), vec![vec![0, 1, 2]]);
}

#[test]
fn processed_files_enter_storage_and_index() {
    let mut repo = Repository::new(Storage::create_new());
    let mut index = Index::default();
    let a = process_file(b"alpha");
    let b = process_file(b"beta");
    assert_eq!(a.encoded, blob_record(b"alpha"));
    assert_eq!(a.hash, hash_bytes(&blob_record(b"alpha")));
    let records = vec![
        PendingStorageWrite { hash: a.hash, data: a.encoded },
        PendingStorageWrite { hash: b.hash, data: b.encoded },
    ];
    let paths = vec!["x/a".to_string(), "b".to_string()];
    let metas = vec![
        FileMeta { mtime: 1, size: 5, executable: false },
        FileMeta { mtime: 2, size: 4, executable: true },
    ];
    assert_eq!(flush_batch(&mut repo, &mut index, &paths, &metas, &records), Ok(()));
    // a batch is visible without a flush
    assert_eq!(repo.read_blob_bytes_without_touching_cache(&records[1].hash), Ok(&b"beta"[..]));
    assert_eq!(index.count, 2);
    let i = index.find("b").unwrap();
    assert_eq!((index.hashes[i], index.modes[i], index.mtimes[i], index.sizes[i]), (records[1].hash, MODE_EXEC, 2, 4));
    assert_eq!(flush_batch(&mut repo, &mut index, &[], &[], &[]), Ok(()));
}

#[test]
fn unstaging_removes_what_is_staged() {
    let mut index = Index::default();
    for p in ["a", "b", "c", "d"] {
        index.add(p, [1; 32], &meta(1, 1));
    }
    let gone = missing_paths(&index, &[true, false, true, false]);
    assert_eq!(gone, vec!["b", "d"]);
    let paths = vec!["d".to_string(), "nope".to_string(), "a".to_string(), "d".to_string()];
    assert_eq!(unstage_paths(&mut index, &paths), 2);
    assert_eq!(index.count, 2);
    assert_eq!(index.get_path(0), "b");
    assert_eq!(index.get_path(1), "c");
}

// patterns

#[test]
fn patterns_combine_into_one_alternation() {
    let patterns: Vec<String> = ["src", r"\.rs$", "(", "^doc/"].iter().map(|s| s.to_string()).collect();
    let re = combine_patterns(&patterns, &[true, false, false, false]).unwrap();
    assert_eq!(re.as_str(), r"(?:\.rs$)|(?:^doc/)");
    assert!(combine_patterns(&patterns[..1], &[true]).is_none());
    assert!(combine_patterns(&patterns[2..3], &[false]).is_none());
    assert!(combine_patterns(&[], &[]).is_none());
    let roots = vec!["/repo/src".to_string()];
    let combined = Some(re);
    assert!(path_selected("/repo/src/main.c", "src/main.c", &roots, &combined));
    assert!(path_selected("/repo/src", "src", &roots, &combined));
    assert!(!path_selected("/repo/srcs/main.c", "srcs/main.c", &roots, &combined));
    assert!(path_selected("/repo/lib/a.rs", "lib/a.rs", &roots, &combined));
    assert!(path_selected("/repo/doc/x", "doc/x", &roots, &combined));
    assert!(!path_selected("/repo/x/doc/y", "x/doc/y", &roots, &combined));
    assert!(!path_selected("/repo/lib/a.rs", "lib/a.rs", &roots, &None));
}

#[test]
fn staged_paths_can_be_matched_by_expression() {
    let mut index = Index::default();
    for p in ["a.rs", "b.txt", "dir/c.rs", "rs"] {
        index.add(p, [1; 32], &meta(1, 1));
    }
    let re = combine_patterns(&[r"\.rs$".to_string()], &[false]).unwrap();
    assert_eq!(matching_index_paths(&index, &re), vec!["a.rs", "dir/c.rs"]);
}

// ignore

#[test]
fn globs_match_stars_and_question_marks() {
    let m = |p: &str, t: &str| SimpleGlob::new(p).is_match(t.as_bytes());
    assert!(m("", ""));
    assert!(!m("", "a"));
    assert!(m("*", ""));
    assert!(m("*", "anything/at all"));
    assert!(m("*.tmp", "x.tmp"));
    assert!(m("*.tmp", "dir/x.tmp"));
    assert!(!m("*.tmp", "x.tmp2"));
    assert!(m("a?c", "abc"));
    assert!(!m("a?c", "ac"));
    assert!(!m("a?c", "abbc"));
    assert!(m("a*b*c", "a-b-b-c"));
    assert!(!m("a*b*c", "a-c-b"));
    assert!(m("**a", "aaa"));
    assert!(m("a*", "a"));
    assert!(!m("a", "A"));
    assert!(m("*a*a*a*a*b", &format!("{}b", "a".repeat(60))));
    assert!(!m("*a*a*a*a*b", &"a".repeat(60)));
}

#[test]
fn ignore_rules_are_read_line_by_line() {
    let content = "# comment\n\n  target/  \r\n*.swp\nnotes.txt\n\\leading\\slash\n/\nsrc/gen?.rs";
    let ignore = Ignore::parse("/repo", Some(content));
    assert_eq!(ignore.exact, vec![b".mog".to_vec(), b".git".to_vec(), b"notes.txt".to_vec(), b"leading/slash".to_vec()]);
    assert_eq!(
        ignore.prefixes,
        vec![b".mog/".to_vec(), b".git/".to_vec(), b"target/".to_vec(), b"notes.txt/".to_vec(), b"leading/slash/".to_vec()]
    );
    assert_eq!(ignore.globs.len(), 2);
    assert_eq!(ignore.globs[1].pat, b"src/gen?.rs".to_vec());
    for p in [".mog", ".git/config", "target/debug/x", "a.swp", "notes.txt", "notes.txt/x", "/notes.txt", "src/gen1.rs", "leading/slash"] {
        assert!(ignore.is_ignored_rel(p), "{p}");
    }
    for p in ["", "/", "target", "notes.txt2", "src/gen12.rs", "x/notes.txt", "# comment"] {
        assert!(!ignore.is_ignored_rel(p), "{p}");
    }
    assert!(ignore.is_ignored_abs("/repo/target/x"));
    assert!(ignore.is_ignored_abs("/repo//a.swp"));
    assert!(!ignore.is_ignored_abs("/repo"));
    assert!(!ignore.is_ignored_abs("/repository/target/x"));
    assert!(!ignore.is_ignored_abs("/elsewhere/target/x"));
    assert!(!ignore.is_ignored_abs("/repo/src/main.rs"));
    let builtin = Ignore::parse("/", None);
    assert!(builtin.is_ignored_abs("/.git/HEAD"));
    assert!(!Ignore::empty().is_ignored_rel(".git"));
}

// branches and refs

#[test]
fn branch_names() {
    for good in ["main", "feature-1", "x", "head", "HEADS", "a.b", "x-"] {
        assert_eq!(validate_branch_name(good), Ok(()), "{good}");
    }
    for bad in ["", "a/b", "/", "a b", "a\tb", "a\nb", " a", "-x", "-", "HEAD"] {
        assert_eq!(validate_branch_name(bad), Err(Error::InvalidInput), "{bad:?}");
    }
}

#[test]
fn branch_operations_are_checked() {
    assert_eq!(check_create("new", false), Ok(()));
    assert_eq!(check_create("new", true), Err(Error::Conflict));
    assert_eq!(check_create("HEAD", true), Err(Error::Conflict));
    assert_eq!(check_create("a b", false), Err(Error::InvalidInput));
    assert_eq!(check_delete(false, false, true), Err(Error::NotFound));
    assert_eq!(check_delete(true, true, true), Err(Error::Conflict));
    assert_eq!(check_delete(true, false, false), Err(Error::Conflict));
    assert_eq!(check_delete(true, false, true), Ok(()));
    assert_eq!(check_force_delete(false, true), Err(Error::NotFound));
    assert_eq!(check_force_delete(true, true), Err(Error::Conflict));
    assert_eq!(check_force_delete(true, false), Ok(()));
    assert_eq!(check_rename(false, "x", false), Err(Error::NotFound));
    assert_eq!(check_rename(true, "x", true), Err(Error::Conflict));
    assert_eq!(check_rename(true, "x/y", false), Err(Error::InvalidInput));
    assert_eq!(check_rename(true, "x", false), Ok(()));
}

#[test]
fn head_is_symbolic_or_detached() {
    match parse_head("ref: refs/heads/main\n") {
        Head::Symbolic(p) => assert_eq!(p, "refs/heads/main"),
        Head::Detached(_) => panic!("symbolic"),
    }
    match parse_head("  ref:  refs/heads/x  \n") {
        Head::Symbolic(p) => assert_eq!(p, "refs/heads/x"),
        Head::Detached(_) => panic!("symbolic"),
    }
    let hex = "0123456789abcdef".repeat(4);
    match parse_head(&format!("{hex}\n")) {
        Head::Detached(h) => assert_eq!(h, hex),
        Head::Symbolic(_) => panic!("detached"),
    }
    assert_eq!(current_branch("ref: refs/heads/topic\n"), Some("topic".to_string()));
    assert_eq!(current_branch("ref: refs/stash/0\n"), None);
    assert_eq!(current_branch(&hex), None);
    assert_eq!(head_content("main"), "ref: refs/heads/main\n");
    assert_eq!(mog::refs::branch_ref("main"), "refs/heads/main");
}

#[test]
fn refs_name_commits_by_hex() {
    let h = hash_bytes(b"commit");
    let content = ref_content(&h);
    assert_eq!(content, format!("{}\n", hex::encode(h)));
    assert_eq!(parse_ref(&content), Ok(h));
    assert_eq!(parse_ref(&format!("  {}\r\n", hex::encode(h))), Ok(h));
    assert_eq!(parse_ref("ref: refs/heads/main\n"), Err(Error::InvalidInput));
    assert_eq!(parse_ref(""), Err(Error::InvalidInput));
}

// stash

#[test]
fn stash_keeps_the_index_as_one_flat_tree() {
    let mut index = Index::default();
    index.add("dir/file", [1; 32], &FileMeta { mtime: 1, size: 1, executable: true });
    index.add("top", [2; 32], &meta(1, 1));
    let entries = stash_entries(&index);
    assert_eq!(entries.len(), 2);
    assert_eq!((entries[0].name.as_str(), entries[0].mode, entries[0].hash), ("dir/file", MODE_EXEC, [1; 32]));
    assert_eq!((entries[1].name.as_str(), entries[1].mode), ("top", MODE_FILE));
}

#[test]
fn stash_message_names_the_dirty_tree() {
    let h = hash_bytes(b"dirty tree");
    let message = stash_message(&h);
    assert_eq!(message, format!("dirty={}", hex::encode(h)));
    assert_eq!(parse_dirty(&message), Some(h));
    assert_eq!(parse_dirty(&format!("note\r\ndirty=dirty={}\r\nmore", hex::encode(h))), Some(h));
    assert_eq!(parse_dirty(&format!("note dirty={}", hex::encode(h))), None);
    assert_eq!(parse_dirty("dirty=abc"), None);
    assert_eq!(parse_dirty(&format!("dirty=\ndirty={}", hex::encode(h))), None);
    assert_eq!(parse_dirty(""), None);
}

#[test]
fn stash_refs_shift_without_overwriting() {
    assert_eq!(shift_stash_refs_up(&vec![1, 0, 3]), vec![(3, 4), (1, 2), (0, 1)]);
    assert_eq!(shift_stash_refs_up(&vec![u32::MAX]), vec![(u32::MAX, 1u64 << 32)]);
    assert!(shift_stash_refs_up(&vec![]).is_empty());
    assert_eq!(shift_stash_refs_down_from(&vec![3, 1, 2, 5], 1), vec![(2, 1), (3, 2), (5, 4)]);
    assert_eq!(mog::stash::shift_stash_refs_down(&vec![2, 0, 1]), vec![(1, 0), (2, 1)]);
    assert_eq!(mog::stash::sorted_numbers(&vec![3, 1, 2, 1]), vec![1, 1, 2, 3]);
    assert_eq!(mog::stash::count_stashes(&vec![0, 1]), 2);
}

// history

#[test]
fn log_follows_first_parents() {
    let mut repo = Repository::new_mock();
    let mut prev: Option<[u8; 32]> = None;
    let mut hashes = Vec::new();
    for i in 0..4 {
        let side = [0xee; 32];
        let parents: Vec<[u8; 32]> = match prev {
            Some(p) => vec![p, side],
            None => vec![],
        };
        let id = repo.stores.commit.push([i as u8; 32], &parents, i, "a", &format!("c{i}"));
        let h = repo.write_object(Object::Commit(id));
        hashes.push(h);
        prev = Some(h);
    }
    let entries = log(&repo, hashes[3], 100).ok().unwrap();
    let messages: Vec<&str> = entries.iter().map(|e| e.commit.message.as_str()).collect();
    assert_eq!(messages, vec!["c3", "c2", "c1", "c0"]);
    assert_eq!(entries[1].hash, hashes[2]);
    assert!(matches!(log(&repo, hashes[3], 3), Err(Error::InvalidInput)));
    assert_eq!(log(&repo, hashes[3], 4).ok().unwrap().len(), 4);
    assert!(matches!(log(&repo, [0; 32], 4), Err(Error::NotFound)));
    let blob = repo.write_blob(b"x");
    assert!(matches!(log(&repo, blob, 4), Err(Error::TypeMismatch)));
}

#[test]
fn reachable_commits_follow_every_parent() {
    let mut repo = Repository::new_mock();
    let mut write = |repo: &mut Repository<mog::storage_mock::MockStorage>, parents: &[[u8; 32]], n: i64| {
        let id = repo.stores.commit.push([0; 32], parents, n, "a", "m");
        repo.write_object(Object::Commit(id))
    };
    let base = write(&mut repo, &[], 0);
    let left = write(&mut repo, &[base], 1);
    let right = write(&mut repo, &[base], 2);
    let merge = write(&mut repo, &[left, right], 3);
    let lonely = write(&mut repo, &[], 4);
    let (found, complete) = repo.reachable_commits(&merge, 100);
    assert!(complete);
    assert_eq!(found, vec![merge, left, right, base]);
    assert!(!found.contains(&lonely));
    let (found, complete) = repo.reachable_commits(&merge, 1);
    assert!(!complete);
    assert_eq!(found, vec![merge, left, right]);
    let (found, complete) = repo.reachable_commits(&[9; 32], 10);
    assert!(complete);
    assert_eq!(found, vec![[9; 32]]);
    assert!(mog::branch::is_merged(&repo.reachable_commits(&left, 10).0, &base));
    assert!(!mog::branch::is_merged(&repo.reachable_commits(&left, 10).0, &right));
}

// checkout and discard

#[test]
fn checkout_deletes_what_the_target_lacks() {
    let mut index = Index::default();
    for p in ["keep", "drop/a", "drop/b"] {
        index.add(p, [1; 32], &meta(1, 1));
    }
    let mut b = FlatTreeBuilder::new();
    b.push("new", [2; 32]);
    b.push("keep", [3; 32]);
    let target = b.build();
    assert_eq!(paths_to_delete(&index, &target), vec!["drop/a", "drop/b"]);
    let metas = vec![
        FileMeta { mtime: 5, size: 6, executable: true },
        FileMeta { mtime: 7, size: 8, executable: false },
    ];
    let fresh = checkout_index(&target, &metas).ok().unwrap();
    assert_eq!(fresh.count, 2);
    assert_eq!(fresh.get_path(0), "new");
    assert_eq!((fresh.hashes[0], fresh.modes[0], fresh.mtimes[0], fresh.sizes[0]), ([2; 32], MODE_EXEC, 5, 6));
    assert_eq!((fresh.hashes[1], fresh.modes[1]), ([3; 32], MODE_FILE));
}

#[test]
fn discard_restores_from_head_or_index() {
    let mut index = Index::default();
    index.add("staged", [1; 32], &meta(1, 1));
    index.add("both", [2; 32], &meta(1, 1));
    let mut b = FlatTreeBuilder::new();
    b.push("both", [3; 32]);
    let head = b.build();
    let restored = |a: DiscardAction| match a {
        DiscardAction::Restore(h) => Some(h),
        DiscardAction::Delete => None,
    };
    assert_eq!(restored(discard_action(&head, &index, "both")), Some([3; 32]));
    assert_eq!(restored(discard_action(&head, &index, "staged")), None);
    assert_eq!(restored(discard_action(&head, &index, "untracked")), None);
    let none = SortedFlatTree::default();
    assert_eq!(restored(discard_action(&none, &index, "staged")), Some([1; 32]));
    assert_eq!(restored(discard_action(&none, &index, "untracked")), None);
}

#[test]
fn hash_object_writes_on_request() {
    let mut repo = Repository::new(Storage::create_new());
    let expected = hash_bytes(&blob_record(b"file"));
    assert_eq!(hash_object(&mut repo, b"file", false), Ok(expected));
    assert!(!repo.storage.contains(&expected));
    assert_eq!(hash_object(&mut repo, b"file", true), Ok(expected));
    assert!(repo.storage.contains(&expected));
    assert_eq!(repo.stores.blob.lengths.len(), 2);
}

#[test]
fn trees_are_written_by_their_entries() {
    let mut repo = Repository::new_mock();
    let entries = vec![entry(MODE_FILE, [1; 32], "a"), entry(MODE_FILE, [1; 32], "b")];
    let h = mog::build_tree::write_tree_of(&mut repo, &entries).ok().unwrap();
    let renamed = vec![entry(MODE_FILE, [1; 32], "a"), entry(MODE_FILE, [1; 32], "c")];
    let h2 = mog::build_tree::write_tree_of(&mut repo, &renamed).ok().unwrap();
    let other_mode = vec![entry(MODE_FILE, [1; 32], "a"), entry(MODE_EXEC, [1; 32], "b")];
    let h3 = mog::build_tree::write_tree_of(&mut repo, &other_mode).ok().unwrap();
    assert_ne!(h, h2);
    assert_ne!(h, h3);
    assert_eq!(mog::build_tree::write_tree_of(&mut repo, &entries).ok().unwrap(), h);
    assert_eq!(repo.storage.object_count(), 3);
    assert_eq!(decode_tree_entries(repo.storage.read(&h).unwrap()).unwrap().len(), 2);
}

#[test]
fn errors_describe_themselves() {
    assert_eq!(Error::HashTableFull.describe(), "hash table full");
    assert_eq!(Error::NotARepository.describe(), "not a mog repository");
    assert_ne!(Error::Io.describe(), Error::Conflict.describe());
}

#[test]
fn storage_with_a_full_table_refuses_a_new_hash() {
    let mut s = Storage::create_new();
    let total = 1usize << 21;
    let mut done = 0usize;
    while done < total {
        let end = (done + 65536).min(total);
        let mut batch = Vec::new();
        for k in done..end {
            // the low 64 bits say the bucket: every record finds its own
            let mut hash = [0u8; 32];
            hash[..8].copy_from_slice(&(k as u64).to_le_bytes());
            batch.push(PendingStorageWrite { hash, data: Vec::new() });
        }
        assert_eq!(s.write_batch(&batch), Ok(()));
        done = end;
    }
    assert_eq!(s.object_count(), total as u64);
    let mut fresh = [0u8; 32];
    fresh[31] = 1;
    assert!(!s.contains(&fresh));
    let refused = [PendingStorageWrite { hash: fresh, data: vec![1] }];
    assert_eq!(s.write_batch(&refused), Err(Error::HashTableFull));
    s.write(fresh, vec![1]);
    assert_eq!(s.flush(), Err(Error::HashTableFull));
    assert!(!s.contains(&fresh));
    // a hash that is stored is no new record
    let mut stored = [0u8; 32];
    stored[..8].copy_from_slice(&5u64.to_le_bytes());
    let again = [PendingStorageWrite { hash: stored, data: vec![9] }];
    assert_eq!(s.write_batch(&again), Ok(()));
    assert_eq!(s.read(&stored), Ok(&[][..]));
    assert_eq!(s.object_count(), total as u64);
}

#[test]
fn flatten_walks_a_chain_of_many_directories() {
    let mut repo = Repository::new_mock();
    let depth = 1100usize;
    let leaf = repo.stores.tree.push(&[entry(MODE_FILE, [5; 32], "f")]);
    let mut hash = repo.write_object(Object::Tree(leaf));
    for _ in 0..depth {
        let id = repo.stores.tree.push(&[entry(MODE_DIR, hash, "d")]);
        hash = repo.write_object(Object::Tree(id));
    }
    let flat = flatten_tree(&repo, hash).ok().unwrap();
    assert_eq!(flat.len(), 1);
    let path = "d/".repeat(depth) + "f";
    assert_eq!(flat.get_path(0), path);
    assert_eq!(flat.lookup(&path), Some([5; 32]));
    assert_eq!(flat.lookup("d"), None);
}

#[test]
fn integers_are_laid_out_low_byte_first() {
    assert_eq!(u32_to_le_bytes(0x0403_0201), vec![1, 2, 3, 4]);
    assert_eq!(u32_to_le_bytes(0o100644), 0o100644u32.to_le_bytes().to_vec());
    assert_eq!(u32_from_le_bytes(&[1, 2, 3, 4]), 0x0403_0201);
    assert_eq!(u32_from_le_bytes(&[0xff, 0xff, 0xff, 0xff]), u32::MAX);
    assert_eq!(u64_to_le_bytes(0x0807_0605_0403_0201), vec![1, 2, 3, 4, 5, 6, 7, 8]);
    assert_eq!(u64_to_le_bytes(u64::MAX - 1), (u64::MAX - 1).to_le_bytes().to_vec());
    assert_eq!(u64_from_le_bytes(&[1, 2, 3, 4, 5, 6, 7, 8]), 0x0807_0605_0403_0201);
    for x in [0u64, 1, 255, 256, 1 << 31, 1 << 32, u64::MAX] {
        assert_eq!(u64_from_le_bytes(&u64_to_le_bytes(x)), x);
    }
}

#[test]
fn stash_overlay_holds_the_dirty_files_that_are_there() {
    let mut index = Index::default();
    index.add("clean.txt", [1; 32], &meta(10, 5));
    index.add("bin/tool", [2; 32], &meta(10, 5));
    index.add("gone.txt", [3; 32], &meta(10, 5));
    index.add("longer.txt", [4; 32], &meta(10, 5));
    let stats = [
        Some(FileMeta { mtime: 10, size: 5, executable: false }),
        Some(FileMeta { mtime: 11, size: 5, executable: true }),
        None,
        Some(FileMeta { mtime: 10, size: 6, executable: false }),
    ];
    let hashes = [[0; 32], [7; 32], [0; 32], [8; 32]];
    let dirty = dirty_entries(&index, &stats, &hashes);
    assert_eq!(dirty.len(), 2);
    assert_eq!((dirty[0].mode, dirty[0].hash, dirty[0].name.as_str()), (MODE_EXEC, [7; 32], "bin/tool"));
    assert_eq!((dirty[1].mode, dirty[1].hash, dirty[1].name.as_str()), (MODE_FILE, [8; 32], "longer.txt"));
    assert!(dirty_entries(&Index::default(), &[], &[]).is_empty());
}

#[test]
fn try_write_blob_writes_what_write_blob_writes() {
    let mut a = Repository::new_mock();
    let mut b = Repository::new_mock();
    let h = a.write_blob(b"same bytes");
    assert_eq!(b.try_write_blob(b"same bytes"), Ok(h));
    assert_eq!(b.storage.read(&h), a.storage.read(&h));
    assert_eq!(b.storage.object_count(), 1);
}

#[test]
fn database_file_is_its_head_and_its_records() {
    let mut s = Storage::create_new();
    assert_eq!(s.records_len(), 0);
    assert_eq!(s.to_head(), s.to_image());
    s.write([1; 32], vec![9, 9]);
    s.flush().unwrap();
    let first = s.records_len();
    assert_eq!(first, 36 + 2);
    let before = s.to_image();
    s.write([2; 32], vec![7]);
    s.flush().unwrap();
    let head = s.to_head();
    assert_eq!(head.len(), 128 + (1 << 21) * 8);
    let tail = s.records_from(first);
    assert_eq!(tail.len(), 36 + 1);
    assert_eq!(&tail[..32], &[2u8; 32]);
    // the records that were there stand where they stood
    assert_eq!(s.records_from(0)[..first], before[head.len()..]);
    let mut whole = head.clone();
    whole.extend_from_slice(s.records_from(0));
    assert_eq!(whole, s.to_image());
}

#[test]
fn trees_of_a_very_deep_path_are_built_and_listed() {
    let mut repo = Repository::new_mock();
    let mut index = Index::default();
    let depth = 8000usize;
    let deep = "d/".repeat(depth) + "f";
    index.add(&deep, [5; 32], &meta(1, 1));
    index.add("top", [6; 32], &meta(1, 1));
    let root = index.write_tree(&mut repo).unwrap();
    assert_eq!(repo.storage.object_count(), depth + 1);
    let flat = flatten_tree(&repo, root).ok().unwrap();
    assert_eq!(flat.len(), 2);
    assert_eq!(flat.lookup(&deep), Some([5; 32]));
    assert_eq!(flat.lookup("top"), Some([6; 32]));
    assert_eq!(flat.lookup("d/d"), None);
}
