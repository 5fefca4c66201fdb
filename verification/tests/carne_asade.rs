use taqueria::recipe::carne_asade::{CarneAsada, CarneAsadaGaucamole, CarneAsadeFile, DecodeError};

fn le16_bytes(v: u16) -> [u8; 2] {
    [(v & 0xff) as u8, (v >> 8) as u8]
}

/// A well-formed 512-byte header: `size` samples per channel,
/// 2021-03-04 05:06:07, the given channel count, label indices
/// 1.. for the used channels, scale 1 for every channel.
fn header_bytes(size: u32, steps: u16) -> [u8; 512] {
    let mut h = [0u8; 512];
    h[4..8].copy_from_slice(&size.to_le_bytes());
    h[128..130].copy_from_slice(&le16_bytes(4)); // day
    h[130..132].copy_from_slice(&le16_bytes(3)); // month
    h[132..134].copy_from_slice(&le16_bytes(2021)); // year
    h[140..142].copy_from_slice(&le16_bytes(5)); // hour
    h[142..144].copy_from_slice(&le16_bytes(6)); // minute
    h[144..146].copy_from_slice(&le16_bytes(7)); // second
    h[146..148].copy_from_slice(&le16_bytes(steps));
    for i in 0..steps as usize {
        h[148 + 2 * i..150 + 2 * i].copy_from_slice(&le16_bytes((i + 2) as u16));
    }
    for i in 0..12 {
        h[196 + 2 * i..198 + 2 * i].copy_from_slice(&le16_bytes(1));
    }
    h[262..264].copy_from_slice(&le16_bytes(500));
    h
}

fn input_bytes(size: u32, steps: u16, samples: &[u16]) -> Vec<u8> {
    let mut v = Vec::new();
    v.extend_from_slice(b"CARNE1.0");
    v.push(0);
    v.push(0);
    v.extend_from_slice(&header_bytes(size, steps));
    for s in samples {
        v.extend_from_slice(&s.to_le_bytes());
    }
    v
}

#[test]
fn test_given_empty_then_no_epics() {
    let chunks = CarneAsada::calculate_chunks(0, 0, 0, 0, 0).unwrap();
    assert_eq!(chunks.len(), 0);
}

#[test]
fn test_given_size_less_than_max_then_one_epic() {
    let total_bytes = 10000;
    let max_bytes = 1024;
    let steps = 3;
    let sample_size = 2;
    let max_threads = 3;
    let chunks =
        CarneAsada::calculate_chunks(total_bytes, max_bytes, max_threads, steps, sample_size)
            .unwrap();
    assert_eq!(chunks.len(), 4);
    assert_eq!(chunks[0].len(), 3);
    assert_eq!(chunks[0][2], (2040, 3060));
}

#[test]
fn chunks_cover_payload_contiguously() {
    let chunks = CarneAsada::calculate_chunks(100000, 1000, 4, 3, 2).unwrap();
    let flat: Vec<(u32, u32)> = chunks.iter().flatten().copied().collect();
    assert_eq!(flat[0].0, 0);
    for w in windows(&flat) {
        assert_eq!(w.0 .1, w.1 .0);
    }
    assert_eq!(flat.last().unwrap().1, 100000);
    for (i, r) in flat.iter().enumerate() {
        if i + 1 < flat.len() {
            assert_eq!((r.1 - r.0) % 6, 0);
        }
    }
}

fn windows(v: &[(u32, u32)]) -> Vec<(&(u32, u32), &(u32, u32))> {
    let mut out = Vec::new();
    for i in 0..v.len().saturating_sub(1) {
        out.push((&v[i], &v[i + 1]));
    }
    out
}

#[test]
fn degenerate_buffer_is_config_error() {
    // P7: a buffer smaller than one sample row of twelve channels.
    let r = CarneAsada::calculate_chunks(1000, 10, 2, 12, 2);
    assert_eq!(r.unwrap_err(), DecodeError::DegenerateConfig);
}

#[test]
fn parse_steps_clamps_out_of_range_indices() {
    // P1: any raw index at or past the table degrades to 0.
    let mut h = header_bytes(1, 2);
    h[148..150].copy_from_slice(&le16_bytes(19));
    h[150..152].copy_from_slice(&le16_bytes(20));
    h[152..154].copy_from_slice(&le16_bytes(65535));
    h[154..156].copy_from_slice(&le16_bytes(0));
    let steps = taqueria::recipe::carne_asade::Header::parse_steps(&h);
    assert_eq!(steps[0], 19);
    assert_eq!(steps[1], 0);
    assert_eq!(steps[2], 0);
    assert_eq!(steps[3], 0);
}

#[test]
fn sign_correction_values() {
    // P4: 65535 with scale 1 is -1 micro-unit; 0 stays 0; 32767 stays positive.
    let conv = vec![1i32; 12];
    let buffer: Vec<u8> = vec![0xff, 0xff, 0x00, 0x00, 0xff, 0x7f];
    let guac = CarneAsadaGaucamole::parse_guacamole(&buffer, 1, &conv);
    assert_eq!(guac.len(), 1);
    assert_eq!(guac[0], vec![-1i64, 0, 32767]);
}

#[test]
fn interleaved_channels_deinterleave() {
    // P6: two channels, three samples each, channel-interleaved.
    let conv = vec![1i32; 12];
    let samples: Vec<u16> = vec![1, 10, 2, 20, 3, 30];
    let mut buffer = Vec::new();
    for s in &samples {
        buffer.extend_from_slice(&s.to_le_bytes());
    }
    let guac = CarneAsadaGaucamole::parse_guacamole(&buffer, 2, &conv);
    assert_eq!(guac[0], vec![1i64, 2, 3]);
    assert_eq!(guac[1], vec![10i64, 20, 30]);
}

#[test]
fn scale_is_applied_per_channel() {
    let mut conv = vec![0i32; 12];
    conv[0] = 3;
    conv[1] = -2;
    let buffer: Vec<u8> = vec![5, 0, 7, 0];
    let guac = CarneAsadaGaucamole::parse_guacamole(&buffer, 2, &conv);
    assert_eq!(guac[0], vec![15i64]);
    assert_eq!(guac[1], vec![-14i64]);
}

#[test]
fn format_mismatch_is_not_fatal() {
    // P8: wrong magic on an otherwise well-formed file.
    let mut input = input_bytes(3, 2, &[1, 10, 2, 20, 3, 30]);
    input[0] = b'X';
    let r = CarneAsada {}.parse(&input);
    assert_eq!(r.unwrap_err(), DecodeError::FormatMismatch);
}

#[test]
fn truncated_input_is_fatal() {
    let input = input_bytes(3, 2, &[1, 10]);
    let r = CarneAsada {}.parse(&input);
    assert_eq!(r.unwrap_err(), DecodeError::Truncated);
    let r2 = CarneAsada {}.parse(&input[..100]);
    assert_eq!(r2.unwrap_err(), DecodeError::Truncated);
    let r3 = CarneAsada {}.parse(&input[..5]);
    assert_eq!(r3.unwrap_err(), DecodeError::Truncated);
}

#[test]
fn invalid_date_is_fatal() {
    let mut input = input_bytes(1, 1, &[0]);
    input[10 + 130..10 + 132].copy_from_slice(&le16_bytes(13));
    let r = CarneAsada {}.parse(&input);
    assert_eq!(r.unwrap_err(), DecodeError::InvalidDate);
}

#[test]
fn invalid_time_is_fatal() {
    let mut input = input_bytes(1, 1, &[0]);
    input[10 + 140..10 + 142].copy_from_slice(&le16_bytes(24));
    let r = CarneAsada {}.parse(&input);
    assert_eq!(r.unwrap_err(), DecodeError::InvalidTime);
}

#[test]
fn zero_channels_is_config_error() {
    let input = input_bytes(0, 0, &[]);
    let r = CarneAsada {}.parse(&input);
    assert_eq!(r.unwrap_err(), DecodeError::DegenerateConfig);
}

/// The measurement a micro-unit count denotes, exactly as the
/// document's decimal rendering of it reads back.
fn micro_value(m: i64) -> f64 {
    let mut text = Vec::new();
    taqueria::numfmt::push_micro(m, &mut text);
    String::from_utf8(text).unwrap().parse().unwrap()
}

fn doc_values(doc: &[u8]) -> (serde_json::Value, Vec<Vec<f64>>) {
    let v: serde_json::Value = serde_json::from_slice(doc).unwrap();
    let guac = v["guacamole"]
        .as_array()
        .unwrap()
        .iter()
        .map(|ch| {
            ch.as_array()
                .unwrap()
                .iter()
                .map(|x| x.as_f64().unwrap())
                .collect::<Vec<f64>>()
        })
        .collect::<Vec<Vec<f64>>>();
    (v, guac)
}

#[test]
fn whole_decode_round_trip() {
    // P3/P6 at the document level: known samples come back scaled by 1e-6,
    // channel-ascending, time-ascending.
    let input = input_bytes(3, 2, &[1, 10, 2, 20, 3, 30]);
    let doc = CarneAsada {}.parse(&input).unwrap();
    let (v, guac) = doc_values(&doc);
    assert_eq!(v["size"], 3);
    assert_eq!(v["number_of_steps"], 2);
    assert_eq!(v["granularity"], 500);
    assert_eq!(v["date_of_recipe"], "2021-03-04");
    assert_eq!(v["time_of_recipe"], "05:06:07");
    assert_eq!(v["units"].as_f64().unwrap(), 1.0);
    assert_eq!(
        v["steps"].as_array().unwrap(),
        &vec![
            serde_json::Value::String(String::from("X")),
            serde_json::Value::String(String::from("Y"))
        ]
    );
    assert_eq!(guac, vec![vec![1e-6, 2e-6, 3e-6], vec![10e-6, 20e-6, 30e-6]]);
}

#[test]
fn negative_sample_round_trip() {
    // P4 at the document level.
    let input = input_bytes(2, 1, &[65535, 0]);
    let doc = CarneAsada {}.parse(&input).unwrap();
    let (_, guac) = doc_values(&doc);
    assert_eq!(guac, vec![vec![-1e-6, 0.0]]);
}

#[test]
fn multi_chunk_decode_matches_single_chunk() {
    // P3: the same payload decoded through several chunks and through
    // one produces the same document, for any parallelism.
    let samples_per_channel = 30000u32; // 120000 payload bytes: two chunks
    let steps = 2u16;
    let mut samples = Vec::new();
    for t in 0..samples_per_channel {
        samples.push((t % 7) as u16);
        samples.push((40000 + t % 11) as u16);
    }
    let input = input_bytes(samples_per_channel, steps, &samples);
    let doc = CarneAsada {}.parse(&input).unwrap();
    let (_, guac) = doc_values(&doc);
    assert_eq!(guac.len(), 2);
    assert_eq!(guac[0].len(), samples_per_channel as usize);
    assert_eq!(guac[1].len(), samples_per_channel as usize);
    for t in 0..samples_per_channel as usize {
        let raw0 = (t % 7) as i64;
        let raw1 = (40000 + t % 11) as i64 - 65536;
        assert_eq!(guac[0][t], micro_value(raw0));
        assert_eq!(guac[1][t], micro_value(raw1));
    }
}

#[test]
fn merge_is_order_independent() {
    // P5: shuffling fragments before the sorting merge changes nothing.
    let md = b"{\"size\":1}".to_vec();
    let f1 = (0usize, 0u32, b"[1.5]".to_vec());
    let f2 = (0usize, 4u32, b"[2.5]".to_vec());
    let f3 = (1usize, 0u32, b"[3.5]".to_vec());
    let f4 = (1usize, 4u32, b"[4.5]".to_vec());
    let order_a = vec![f1.clone(), f2.clone(), f3.clone(), f4.clone()];
    let order_b = vec![f4, f2, f1, f3];
    let doc_a = CarneAsadeFile::merge(&md, &CarneAsadeFile::sort_fragments(order_a));
    let doc_b = CarneAsadeFile::merge(&md, &CarneAsadeFile::sort_fragments(order_b));
    assert_eq!(doc_a, doc_b);
    assert_eq!(
        String::from_utf8(doc_a).unwrap(),
        "{\"size\":1,\"guacamole\":[[1.5,2.5],[3.5,4.5]]}"
    );
}

#[test]
fn merge_pipeline_ignores_parallelism() {
    // P3 again, against a hand-driven pipeline with different thread
    // counts and chunk budgets.
    let steps = 2u16;
    let conv = vec![1i32; 12];
    let mut payload = Vec::new();
    for t in 0..5000u32 {
        payload.extend_from_slice(&((t % 100) as u16).to_le_bytes());
        payload.extend_from_slice(&((t % 50) as u16).to_le_bytes());
    }
    let md = b"{\"size\":5000}".to_vec();
    let mut docs = Vec::new();
    for (max_bytes, threads) in [(1000u32, 1u32), (1000, 8), (4096, 3), (102400, 8)] {
        let plan =
            CarneAsada::calculate_chunks(payload.len() as u32, max_bytes, threads, steps as u32, 2)
                .unwrap();
        let mut frags = Vec::new();
        for wave in plan {
            for (onset, limit) in wave {
                if onset == limit {
                    continue;
                }
                let guac = CarneAsadaGaucamole::parse_guacamole(
                    &payload[onset as usize..limit as usize],
                    steps,
                    &conv,
                );
                for (s, series) in guac.iter().enumerate() {
                    frags.push((
                        s,
                        onset,
                        taqueria::recipe::carne_asade::series_json(series),
                    ));
                }
            }
        }
        docs.push(CarneAsadeFile::merge(&md, &CarneAsadeFile::sort_fragments(frags)));
    }
    assert_eq!(docs[0], docs[1]);
    assert_eq!(docs[1], docs[2]);
    assert_eq!(docs[2], docs[3]);
}
