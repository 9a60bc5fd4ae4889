use stegoshare::codec::{
    decode_image, decrypt, embed_metadata, encrypt, extract_metadata, image_to_png, lsb_embed,
    stego_decode, stego_encode, strip_metadata_row, CodecError, ImageBuf,
};

fn test_image(width: u32, height: u32, seed: u8) -> ImageBuf {
    let n = (4 * width * height) as usize;
    let mut data = Vec::with_capacity(n);
    for i in 0..n {
        data.push((seed as usize).wrapping_add(i.wrapping_mul(37)) as u8);
    }
    ImageBuf { width, height, data }
}

#[test]
fn lsb_roundtrip_keeps_high_nibbles() {
    let cover = test_image(8, 2, 3);
    let payload = test_image(8, 2, 101);
    let stego = lsb_embed(&cover, &payload);
    let recovered = decrypt(&stego);
    assert_eq!(recovered.width, 8);
    assert_eq!(recovered.height, 2);
    for i in 0..payload.data.len() {
        assert_eq!(recovered.data[i], payload.data[i] & 0xF0);
        assert!(payload.data[i] - recovered.data[i] < 16);
    }
}

#[test]
fn encrypt_resizes_the_cover_to_the_payload() {
    let cover = test_image(4, 4, 9);
    let payload = test_image(8, 2, 33);
    let stego = encrypt(&cover, &payload);
    assert_eq!((stego.width, stego.height), (8, 2));
    let recovered = decrypt(&stego);
    for i in 0..payload.data.len() {
        assert_eq!(recovered.data[i], payload.data[i] & 0xF0);
    }
}

#[test]
fn metadata_row_roundtrip_identical() {
    let img = test_image(8, 1, 7);
    let framed = embed_metadata(&img, 5, 42);
    assert_eq!(framed.height, 2);
    let (views, owner) = extract_metadata(&framed);
    assert_eq!((views, owner), (5, 42));
    let stripped = strip_metadata_row(&framed);
    assert_eq!(stripped.width, img.width);
    assert_eq!(stripped.height, img.height);
    assert_eq!(stripped.data, img.data);
}

#[test]
fn metadata_row_layout() {
    let img = test_image(9, 1, 0);
    let framed = embed_metadata(&img, 0x01020304, 0x0A0B0C0D);
    // the metadata row is the bottom row: R carries the bytes, A is opaque
    let base = (4 * 9) as usize;
    assert_eq!(framed.data[base], 0x01);
    assert_eq!(framed.data[base + 4], 0x02);
    assert_eq!(framed.data[base + 8], 0x03);
    assert_eq!(framed.data[base + 12], 0x04);
    assert_eq!(framed.data[base + 16], 0x0A);
    assert_eq!(framed.data[base + 20], 0x0B);
    assert_eq!(framed.data[base + 24], 0x0C);
    assert_eq!(framed.data[base + 28], 0x0D);
    assert_eq!(framed.data[base + 1], 0);
    assert_eq!(framed.data[base + 3], 255);
    // the extra pixel beyond the eight data pixels is blank and opaque
    assert_eq!(framed.data[base + 32], 0);
    assert_eq!(framed.data[base + 35], 255);
}

#[test]
fn metadata_row_can_be_readdressed() {
    // a serving peer strips the leader's row and writes the requester's
    let img = test_image(10, 3, 21);
    let from_leader = embed_metadata(&img, 5, 0);
    let stripped = strip_metadata_row(&from_leader);
    let readdressed = embed_metadata(&stripped, 5, 6);
    assert_eq!(extract_metadata(&readdressed), (5, 6));
    assert_eq!(strip_metadata_row(&readdressed).data, img.data);
}

#[test]
fn png_roundtrip_exact() {
    let img = test_image(16, 16, 9);
    let png = image_to_png(&img).expect("png encode");
    assert_ne!(png, img.data, "PNG serialisation is not the raw buffer");
    let back = decode_image(&png).expect("png decode");
    assert_eq!(back.width, 16);
    assert_eq!(back.height, 16);
    assert_eq!(back.data, img.data);
}

#[test]
fn stego_encode_decode_full_round() {
    let payload = test_image(16, 12, 5);
    let payload_png = image_to_png(&payload).expect("payload png");
    let cover = test_image(20, 20, 77);
    let stego_png = stego_encode(&payload_png, &cover, 5, 42).expect("encode");
    let (hidden, views, owner) = stego_decode(&stego_png).expect("decode");
    assert_eq!(views, 5);
    assert_eq!(owner, 42);
    assert_eq!(hidden.width, payload.width);
    assert_eq!(hidden.height, payload.height);
    assert_eq!(hidden.data.len(), payload.data.len());
    for i in 0..payload.data.len() {
        assert_eq!(hidden.data[i], payload.data[i] & 0xF0);
    }
}

#[test]
fn stego_encode_large_upload() {
    // a payload of exactly 500 * 500 pixels: one million RGBA-stream bytes
    let payload = test_image(500, 500, 11);
    assert_eq!(payload.data.len(), 1_000_000);
    let payload_png = image_to_png(&payload).expect("payload png");
    let cover = test_image(64, 64, 200);
    let stego_png = stego_encode(&payload_png, &cover, 5, 6).expect("encode");
    let (hidden, views, owner) = stego_decode(&stego_png).expect("decode");
    assert_eq!((views, owner), (5, 6));
    for i in (0..payload.data.len()).step_by(997) {
        assert_eq!(hidden.data[i], payload.data[i] & 0xF0);
    }
}

#[test]
fn stego_encode_rejects_garbage() {
    let cover = test_image(8, 8, 1);
    let garbage = b"this is not an image at all".to_vec();
    assert_eq!(stego_encode(&garbage, &cover, 5, 1), Err(CodecError::DecodeFailed));
}

#[test]
fn stego_encode_rejects_narrow_payload() {
    // a 4-pixel-wide payload cannot carry the metadata row
    let narrow = test_image(4, 4, 2);
    let narrow_png = image_to_png(&narrow).expect("png");
    let cover = test_image(8, 8, 1);
    assert_eq!(stego_encode(&narrow_png, &cover, 5, 1), Err(CodecError::CapacityExceeded));
}

#[test]
fn stego_decode_rejects_narrow_image() {
    let narrow = test_image(4, 4, 2);
    let narrow_png = image_to_png(&narrow).expect("png");
    assert!(matches!(stego_decode(&narrow_png), Err(CodecError::TooSmall)));
}

#[test]
fn stego_decode_rejects_garbage() {
    let garbage = b"\x89PNG but not really".to_vec();
    assert_eq!(
        stego_decode(&garbage).map(|_| ()),
        Err(CodecError::DecodeFailed)
    );
}
