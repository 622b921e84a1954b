use wail::buffers::{deinterleave_to_channels, ensure_buf, interleave_channels, write_peer_to_aux};

fn bits(samples: &[f32]) -> Vec<u32> {
    samples.iter().map(|s| s.to_bits()).collect()
}

fn floats(samples: &[u32]) -> Vec<f32> {
    samples.iter().map(|s| f32::from_bits(*s)).collect()
}

#[test]
fn deinterleave_stereo() {
    let interleaved = [1.0f32, 5.0, 2.0, 6.0, 3.0, 7.0, 4.0, 8.0];
    let mut channels = vec![vec![0u32; 4], vec![0u32; 4]];
    deinterleave_to_channels(&bits(&interleaved), &mut channels, 4);
    assert_eq!(floats(&channels[0]), [1.0, 2.0, 3.0, 4.0]);
    assert_eq!(floats(&channels[1]), [5.0, 6.0, 7.0, 8.0]);
}

#[test]
fn deinterleave_mono() {
    let interleaved = [0.5f32, 0.25, 0.75];
    let mut channels = vec![vec![0u32; 3]];
    deinterleave_to_channels(&bits(&interleaved), &mut channels, 3);
    assert_eq!(floats(&channels[0]), [0.5, 0.25, 0.75]);
}

#[test]
fn deinterleave_roundtrips_with_interleave() {
    // Interleave then de-interleave should give back the original channels
    let left = [1.0f32, 2.0, 3.0, 4.0];
    let right = [5.0f32, 6.0, 7.0, 8.0];
    let num_samples = 4;
    let num_channels = 2;

    let mut interleaved = vec![0u32; num_samples * num_channels];
    interleave_channels(&vec![bits(&left), bits(&right)], &mut interleaved, num_samples, true);

    let mut out = vec![vec![0u32; 4], vec![0u32; 4]];
    deinterleave_to_channels(&interleaved, &mut out, num_samples);
    assert_eq!(floats(&out[0]), left);
    assert_eq!(floats(&out[1]), right);
}

#[test]
fn write_peer_to_aux_stereo() {
    // Peer buffer: interleaved stereo [L0 R0 L1 R1 L2 R2]
    let peer_buf = [0.1f32, 0.2, 0.3, 0.4, 0.5, 0.6];
    let mut aux = vec![vec![0u32; 3], vec![0u32; 3]];
    write_peer_to_aux(&bits(&peer_buf), &mut aux, 3, 2);
    assert_eq!(floats(&aux[0]), [0.1, 0.3, 0.5]);
    assert_eq!(floats(&aux[1]), [0.2, 0.4, 0.6]);
}

#[test]
fn write_peer_to_aux_mono_source_stereo_aux() {
    // Mono source into stereo aux: only first channel gets data
    let peer_buf = [0.5f32, 0.75, 1.0];
    let mut aux = vec![vec![0u32; 3], vec![0u32; 3]];
    write_peer_to_aux(&bits(&peer_buf), &mut aux, 3, 1);
    assert_eq!(floats(&aux[0]), [0.5, 0.75, 1.0]);
    assert_eq!(floats(&aux[1]), [0.0, 0.0, 0.0]); // untouched
}

#[test]
fn write_peer_to_aux_leaves_the_rest() {
    // More source channels than outputs, and a longer output than the copy
    let mut aux = vec![vec![9u32; 3]];
    write_peer_to_aux(&[1, 2, 3, 4], &mut aux, 2, 2);
    assert_eq!(aux, vec![vec![1, 3, 9]]);
}

#[test]
fn peer_isolation_different_data() {
    // Simulate 3 peers with distinct signals, verify isolation
    let peer0 = [1.0f32, 1.0, 1.0, 1.0]; // stereo: L=1 R=1
    let peer1 = [2.0f32, 2.0, 2.0, 2.0]; // stereo: L=2 R=2
    let peer2 = [3.0f32, 3.0, 3.0, 3.0]; // stereo: L=3 R=3

    let peers = [&peer0[..], &peer1[..], &peer2[..]];
    let mut results = [[0.0f32; 2]; 3]; // 3 peers, 2 samples each (left channel only)

    for (i, peer_buf) in peers.iter().enumerate() {
        let mut aux = vec![vec![0u32; 2], vec![0u32; 2]];
        write_peer_to_aux(&bits(peer_buf), &mut aux, 2, 2);
        results[i] = [f32::from_bits(aux[0][0]), f32::from_bits(aux[0][1])];
    }

    // Each peer should produce its own distinct value
    assert_eq!(results[0], [1.0, 1.0]);
    assert_eq!(results[1], [2.0, 2.0]);
    assert_eq!(results[2], [3.0, 3.0]);
}

#[test]
fn interleave_stereo() {
    let left = [1.0f32, 2.0, 3.0, 4.0];
    let right = [5.0f32, 6.0, 7.0, 8.0];
    let mut output = vec![0u32; 8];

    interleave_channels(&vec![bits(&left), bits(&right)], &mut output, 4, true);

    assert_eq!(floats(&output), vec![1.0, 5.0, 2.0, 6.0, 3.0, 7.0, 4.0, 8.0]);
}

#[test]
fn interleave_mono() {
    let mono = [0.5f32, 0.25, 0.75];
    let mut output = vec![0u32; 3];

    interleave_channels(&vec![bits(&mono)], &mut output, 3, true);

    assert_eq!(floats(&output), vec![0.5, 0.25, 0.75]);
}

#[test]
fn interleave_silence_when_not_playing() {
    let left = [1.0f32, 2.0, 3.0];
    let right = [4.0f32, 5.0, 6.0];
    let mut output = bits(&[99.0f32; 6]);

    interleave_channels(&vec![bits(&left), bits(&right)], &mut output, 3, false);

    assert_eq!(floats(&output), vec![0.0; 6]);
}

#[test]
fn interleave_leaves_what_follows() {
    let mut output = vec![7u32; 5];
    interleave_channels(&vec![vec![1, 2], vec![3, 4]], &mut output, 2, true);
    assert_eq!(output, vec![1, 3, 2, 4, 7]);
    interleave_channels(&Vec::new(), &mut output, 2, true);
    assert_eq!(output, vec![1, 3, 2, 4, 7]);
}

#[test]
fn ensure_buf_grows() {
    let mut buf = bits(&[1.0f32; 4]);
    ensure_buf(&mut buf, 8);
    assert_eq!(buf.len(), 8);
    assert_eq!(f32::from_bits(buf[0]), 1.0);
    assert_eq!(f32::from_bits(buf[4]), 0.0);
}

#[test]
fn lib_ensure_buf_grows() {
    let mut buf = bits(&[1.0f32; 4]);
    ensure_buf(&mut buf, 8);
    assert_eq!(buf.len(), 8);
    // Original values preserved
    assert_eq!(f32::from_bits(buf[0]), 1.0);
    assert_eq!(f32::from_bits(buf[3]), 1.0);
    // New values are zero
    assert_eq!(f32::from_bits(buf[4]), 0.0);
}

#[test]
fn ensure_buf_no_shrink() {
    let mut buf = bits(&[1.0f32; 8]);
    ensure_buf(&mut buf, 4);
    assert_eq!(buf.len(), 8); // should not shrink
}
