use flatbuffers::FlatBufferBuilder;
use flatstream::{
    ChecksumDeframer, ChecksumFramer, Crc16, Crc32, DefaultDeframer, DefaultFramer, SliceSource,
    StreamReader, StreamWriter, XxHash64,
};

/// Deterministic pseudo-random lowercase strings of the given lengths.
fn gen_mixed_messages(seed: &mut u64, sizes: &[usize]) -> Vec<String> {
    sizes
        .iter()
        .map(|&len| {
            (0..len)
                .map(|_| {
                    *seed = seed.wrapping_mul(6364136223846793005).wrapping_add(1442695040888963407);
                    (b'a' + ((*seed >> 33) % 26) as u8) as char
                })
                .collect()
        })
        .collect()
}

#[test]
fn table_driven_basic_cycles() {
    let mut seed = 0x005E_ED42u64;
    let cases: &[(&str, Vec<usize>)] = &[
        ("empty", vec![]),
        ("one", vec![8]),
        ("few", vec![4, 16, 32]),
        ("many_small", vec![8; 100]),
    ];

    for (_name, sizes) in cases.iter() {
        let msgs = gen_mixed_messages(&mut seed, sizes);
        let mut expected: Vec<Vec<u8>> = Vec::new();
        let wire = {
            let mut w = StreamWriter::new(Vec::new(), DefaultFramer);
            let mut b = FlatBufferBuilder::new();
            for m in &msgs {
                b.reset();
                let s = b.create_string(m);
                b.finish(s, None);
                expected.push(b.finished_data().to_vec());
                w.write_finished(b.finished_data()).unwrap();
            }
            w.flush().unwrap();
            w.into_inner()
        };
        {
            let mut r = StreamReader::new(SliceSource::new(wire.clone()), DefaultDeframer::new());
            let mut count = 0;
            r.process_all(|p| {
                assert_eq!(p, &expected[count][..]);
                count += 1;
                Ok(())
            })
            .unwrap();
            assert_eq!(count, expected.len());
        }
        {
            let mut r = StreamReader::new(SliceSource::new(wire), DefaultDeframer::new());
            let mut count = 0usize;
            let mut it = r.messages();
            while let Some(p) = it.next().unwrap() {
                assert_eq!(p, &expected[count][..]);
                count += 1;
            }
            assert_eq!(count, expected.len());
        }
    }
}

/// Serializes `s` as a string root and returns the finished payload.
fn string_root(s: &str) -> Vec<u8> {
    let mut b = FlatBufferBuilder::new();
    let off = b.create_string(s);
    b.finish(off, None);
    b.finished_data().to_vec()
}

#[test]
fn sized_checksums_independent_streams() {
    {
        let mut w = StreamWriter::new(Vec::new(), ChecksumFramer::new(Crc16::new()));
        assert!(w.write_finished(&string_root("small")).is_ok());
        w.flush().unwrap();
        let mut r = StreamReader::new(SliceSource::new(w.into_inner()), ChecksumDeframer::new(Crc16::new()));
        assert!(r.read_message().unwrap().is_some());
    }
    {
        let mut w = StreamWriter::new(Vec::new(), ChecksumFramer::new(Crc32::new()));
        assert!(w.write_finished(&string_root("medium_message")).is_ok());
        w.flush().unwrap();
        let mut r = StreamReader::new(SliceSource::new(w.into_inner()), ChecksumDeframer::new(Crc32::new()));
        assert!(r.read_message().unwrap().is_some());
    }
    {
        let mut w = StreamWriter::new(Vec::new(), ChecksumFramer::new(XxHash64::new()));
        let payload = String::from_utf8(vec![b'x'; 1024]).unwrap();
        assert!(w.write_finished(&string_root(&payload)).is_ok());
        w.flush().unwrap();
        let mut r = StreamReader::new(SliceSource::new(w.into_inner()), ChecksumDeframer::new(XxHash64::new()));
        assert!(r.read_message().unwrap().is_some());
    }
}
