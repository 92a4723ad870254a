use std::io::{Cursor, Write};
use zip::write::{SimpleFileOptions, ZipWriter};

use pth2st::pth::{tensor_bytes, PthDtype, PthError, PthReader};
use pth2st::value::PyValue;

fn build_archive(entries: &[(&str, &[u8])]) -> Vec<u8> {
    let mut w = ZipWriter::new(Cursor::new(Vec::new()));
    let opts = SimpleFileOptions::default();
    for (name, data) in entries {
        w.start_file(*name, opts).unwrap();
        w.write_all(data).unwrap();
    }
    w.finish().unwrap().into_inner()
}

/// An opcode stream encoding {"w": rebuild(PersId((_, storage-class, file,
/// device, count)), 0, shape, _, _)}.
fn graph_bytes(name: &str, storage: &str, zfn: &str, count: u8, shape: &[u8]) -> Vec<u8> {
    let mut b: Vec<u8> = vec![0x80, 2, b'}', b'('];
    b.push(b'X');
    b.extend_from_slice(&(name.len() as u32).to_le_bytes());
    b.extend_from_slice(name.as_bytes());
    b.push(b'c');
    b.extend_from_slice(b"torch._utils\n_rebuild_tensor_v2\n");
    b.push(b'(');
    // the persistent reference: (kind, storage class, file, device, count)
    b.push(b'(');
    b.extend_from_slice(&[b'X', 7, 0, 0, 0]);
    b.extend_from_slice(b"storage");
    b.push(b'c');
    b.extend_from_slice(b"torch\n");
    b.extend_from_slice(storage.as_bytes());
    b.push(b'\n');
    b.push(b'X');
    b.extend_from_slice(&(zfn.len() as u32).to_le_bytes());
    b.extend_from_slice(zfn.as_bytes());
    b.extend_from_slice(&[b'X', 3, 0, 0, 0]);
    b.extend_from_slice(b"cpu");
    b.extend_from_slice(&[b'K', count, b't', b'Q']);
    // remaining rebuild arguments: offset, shape, stride flag, hooks
    b.extend_from_slice(&[b'K', 0, b'(']);
    for d in shape {
        b.extend_from_slice(&[b'K', *d]);
    }
    b.extend_from_slice(&[b't', b'K', 0, b')', b't', b'R', b'u', b'.']);
    b
}

#[test]
fn end_to_end_single_tensor() {
    let pkl = graph_bytes("w", "Float32Storage", "0", 6, &[2, 3]);
    let data: Vec<u8> = (0u8..24u8).collect();
    let archive = build_archive(&[("archive/data.pkl", &pkl), ("archive/data/0", &data)]);
    let reader = PthReader::new(vec![("test.pt".to_string(), archive.clone())]).unwrap();
    let entries = reader.tensors.entries();
    assert_eq!(entries.len(), 1);
    let loc = reader.tensors.get(&"w".to_string()).unwrap();
    assert_eq!(loc.dtype(), PthDtype::FP32);
    assert_eq!(loc.shape(), &vec![2usize, 3usize]);
    assert_eq!(loc.data_len(), 24);
    assert_eq!(loc.zipfile(), &"test.pt".to_string());
    assert_eq!(loc.zip_inner_file(), &"archive/data/0".to_string());
    let bytes = tensor_bytes(loc, &archive).unwrap();
    assert_eq!(bytes, data);
}

#[test]
fn duplicate_name_later_archive_wins() {
    let pkl1 = graph_bytes("w", "Float32Storage", "0", 6, &[2, 3]);
    let d1: Vec<u8> = vec![1; 24];
    let a1 = build_archive(&[("one/data.pkl", &pkl1), ("one/data/0", &d1)]);
    let pkl2 = graph_bytes("w", "Float16Storage", "0", 4, &[4]);
    let d2: Vec<u8> = vec![2; 8];
    let a2 = build_archive(&[("two/data.pkl", &pkl2), ("two/data/0", &d2)]);
    let reader = PthReader::new(vec![
        ("first.pt".to_string(), a1),
        ("second.pt".to_string(), a2.clone()),
    ])
    .unwrap();
    let loc = reader.tensors.get(&"w".to_string()).unwrap();
    assert_eq!(loc.dtype(), PthDtype::FP16);
    assert_eq!(loc.zipfile(), &"second.pt".to_string());
    assert_eq!(loc.zip_inner_file(), &"two/data/0".to_string());
    let bytes = tensor_bytes(loc, &a2).unwrap();
    assert_eq!(bytes, d2);
}

#[test]
fn archive_without_graph_entry_contributes_nothing() {
    let a = build_archive(&[("misc/readme.txt", b"nothing here")]);
    let reader = PthReader::new(vec![("plain.pt".to_string(), a)]).unwrap();
    assert_eq!(reader.tensors.entries().len(), 0);
    assert!(reader.tensors.get(&"w".to_string()).is_none());
}

#[test]
fn last_matching_entry_name_wins() {
    let pkl1 = graph_bytes("a", "Float32Storage", "0", 1, &[1]);
    let d1: Vec<u8> = vec![0; 4];
    let pkl2 = graph_bytes("b", "Float32Storage", "0", 1, &[1]);
    let d2: Vec<u8> = vec![0; 4];
    let a = build_archive(&[
        ("one/data.pkl", &pkl1),
        ("one/data/0", &d1),
        ("two/data.pkl", &pkl2),
        ("two/data/0", &d2),
    ]);
    let reader = PthReader::new(vec![("x.pt".to_string(), a)]).unwrap();
    assert!(reader.tensors.get(&"b".to_string()).is_some());
    assert!(reader.tensors.get(&"a".to_string()).is_none());
}

#[test]
fn short_entry_is_fatal_on_read() {
    let pkl = graph_bytes("w", "Float32Storage", "0", 6, &[2, 3]);
    let data: Vec<u8> = vec![0; 10];
    let archive = build_archive(&[("a/data.pkl", &pkl), ("a/data/0", &data)]);
    let reader = PthReader::new(vec![("t.pt".to_string(), archive.clone())]).unwrap();
    let loc = reader.tensors.get(&"w".to_string()).unwrap();
    assert!(tensor_bytes(loc, &archive).is_err());
}

#[test]
fn unreadable_archive_is_fatal_and_identified() {
    let good_pkl = graph_bytes("w", "Float32Storage", "0", 1, &[1]);
    let good_data: Vec<u8> = vec![0; 4];
    let good = build_archive(&[("g/data.pkl", &good_pkl), ("g/data/0", &good_data)]);
    let r = PthReader::new(vec![
        ("good.pt".to_string(), good),
        ("bad.pt".to_string(), b"not an archive".to_vec()),
    ]);
    let f = r.err().unwrap();
    assert_eq!(f.error, PthError::BadArchive);
    assert_eq!(f.archive, 1);
}

#[test]
fn corrupt_graph_entry_is_fatal() {
    let a = build_archive(&[("x/data.pkl", &[0x80u8, 9u8][..])]);
    let r = PthReader::new(vec![("x.pt".to_string(), a)]);
    let f = r.err().unwrap();
    assert!(matches!(f.error, PthError::Pickle(_)));
    assert_eq!(f.archive, 0);
}

#[test]
fn missing_storage_entry_is_fatal_on_read() {
    let pkl = graph_bytes("w", "Float32Storage", "9", 1, &[1]);
    let archive = build_archive(&[("a/data.pkl", &pkl)]);
    let reader = PthReader::new(vec![("t.pt".to_string(), archive.clone())]).unwrap();
    let loc = reader.tensors.get(&"w".to_string()).unwrap();
    assert_eq!(
        tensor_bytes(loc, &archive).map(|b| b.len()),
        Err(PthError::MissingEntry)
    );
}
