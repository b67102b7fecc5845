use vstd::prelude::*;

verus! {

/// `bytes` starts with `prefix`.
pub open spec fn starts_with(bytes: Seq<u8>, prefix: Seq<u8>) -> bool {
    bytes.len() >= prefix.len() && bytes.take(prefix.len() as int) == prefix
}

pub open spec fn png_signature() -> Seq<u8> {
    seq![0x89u8, 0x50u8, 0x4Eu8, 0x47u8, 0x0Du8, 0x0Au8, 0x1Au8, 0x0Au8]
}

pub open spec fn jpeg_signature() -> Seq<u8> {
    seq![0xFFu8, 0xD8u8]
}

pub open spec fn bmp_signature() -> Seq<u8> {
    seq![0x42u8, 0x4Du8]
}

/// `GIF89a`
pub open spec fn gif89a_signature() -> Seq<u8> {
    seq![0x47u8, 0x49u8, 0x46u8, 0x38u8, 0x39u8, 0x61u8]
}

/// `GIF87a`
pub open spec fn gif87a_signature() -> Seq<u8> {
    seq![0x47u8, 0x49u8, 0x46u8, 0x38u8, 0x37u8, 0x61u8]
}

/// The file extension and MIME type that the magic bytes at the start of `bytes`
/// announce, tested in the order PNG, JPEG, BMP, GIF.
pub open spec fn detected_format(bytes: Seq<u8>) -> (Seq<char>, Seq<char>) {
    if starts_with(bytes, png_signature()) {
        ("png"@, "image/png"@)
    } else if starts_with(bytes, jpeg_signature()) {
        ("jpg"@, "image/jpeg"@)
    } else if starts_with(bytes, bmp_signature()) {
        ("bmp"@, "image/bmp"@)
    } else if starts_with(bytes, gif89a_signature()) || starts_with(bytes, gif87a_signature()) {
        ("gif"@, "image/gif"@)
    } else {
        ("bin"@, "application/octet-stream"@)
    }
}

/// Detects an image format from its magic bytes: returns the file extension and
/// the MIME type.
pub fn detect_image_format(bytes: &[u8]) -> (res: (&'static str, &'static str))
    ensures
        (res.0@, res.1@) == detected_format(bytes@),
{
    let n = bytes.len();
    let png = n >= 8 && bytes[0] == 0x89 && bytes[1] == 0x50 && bytes[2] == 0x4E && bytes[3] == 0x47
        && bytes[4] == 0x0D && bytes[5] == 0x0A && bytes[6] == 0x1A && bytes[7] == 0x0A;
    assert(png <==> starts_with(bytes@, png_signature())) by {
        if n >= 8 {
            assert(png ==> bytes@.take(8) =~= png_signature());
        }
    }
    if png {
        return ("png", "image/png");
    }
    let jpeg = n >= 2 && bytes[0] == 0xFF && bytes[1] == 0xD8;
    assert(jpeg <==> starts_with(bytes@, jpeg_signature())) by {
        if n >= 2 {
            assert(jpeg ==> bytes@.take(2) =~= jpeg_signature());
        }
    }
    if jpeg {
        return ("jpg", "image/jpeg");
    }
    let bmp = n >= 2 && bytes[0] == 0x42 && bytes[1] == 0x4D;
    assert(bmp <==> starts_with(bytes@, bmp_signature())) by {
        if n >= 2 {
            assert(bmp ==> bytes@.take(2) =~= bmp_signature());
        }
    }
    if bmp {
        return ("bmp", "image/bmp");
    }
    let gif_head = n >= 6 && bytes[0] == 0x47 && bytes[1] == 0x49 && bytes[2] == 0x46 && bytes[3] == 0x38
        && bytes[5] == 0x61;
    let gif89 = gif_head && bytes[4] == 0x39;
    let gif87 = gif_head && bytes[4] == 0x37;
    assert(gif89 <==> starts_with(bytes@, gif89a_signature())) by {
        if n >= 6 {
            assert(gif89 ==> bytes@.take(6) =~= gif89a_signature());
        }
    }
    assert(gif87 <==> starts_with(bytes@, gif87a_signature())) by {
        if n >= 6 {
            assert(gif87 ==> bytes@.take(6) =~= gif87a_signature());
        }
    }
    if gif89 || gif87 {
        ("gif", "image/gif")
    } else {
        ("bin", "application/octet-stream")
    }
}

/// Any bytes that begin `FF D8` are a JPEG image, whatever follows (JFIF, Exif or
/// any other segment).
pub proof fn lemma_ff_d8_is_jpeg(bytes: Seq<u8>)
    requires
        bytes.len() >= 2,
        bytes[0] == 0xFFu8,
        bytes[1] == 0xD8u8,
    ensures
        detected_format(bytes) == ("jpg"@, "image/jpeg"@),
{
    assert(!starts_with(bytes, png_signature())) by {
        if bytes.len() >= 8 {
            assert(bytes.take(8)[0] == bytes[0]);
        }
    }
    assert(bytes.take(2) =~= jpeg_signature());
}

/// Any bytes that begin with the eight-byte PNG signature are a PNG image.
pub proof fn lemma_png_signature_is_png(bytes: Seq<u8>)
    requires
        bytes.len() >= 8,
        bytes[0] == 0x89u8,
        bytes[1] == 0x50u8,
        bytes[2] == 0x4Eu8,
        bytes[3] == 0x47u8,
        bytes[4] == 0x0Du8,
        bytes[5] == 0x0Au8,
        bytes[6] == 0x1Au8,
        bytes[7] == 0x0Au8,
    ensures
        detected_format(bytes) == ("png"@, "image/png"@),
{
    assert(bytes.take(8) =~= png_signature());
}

/// Any bytes that begin `BM` are a BMP image.
pub proof fn lemma_bm_is_bmp(bytes: Seq<u8>)
    requires
        bytes.len() >= 2,
        bytes[0] == 0x42u8,
        bytes[1] == 0x4Du8,
    ensures
        detected_format(bytes) == ("bmp"@, "image/bmp"@),
{
    assert(!starts_with(bytes, png_signature())) by {
        if bytes.len() >= 8 {
            assert(bytes.take(8)[0] == bytes[0]);
        }
    }
    assert(!starts_with(bytes, jpeg_signature())) by {
        assert(bytes.take(2)[0] == bytes[0]);
    }
    assert(bytes.take(2) =~= bmp_signature());
}

/// Any bytes that begin `GIF87a` or `GIF89a` are a GIF image.
pub proof fn lemma_gif_header_is_gif(bytes: Seq<u8>)
    requires
        bytes.len() >= 6,
        bytes[0] == 0x47u8,
        bytes[1] == 0x49u8,
        bytes[2] == 0x46u8,
        bytes[3] == 0x38u8,
        bytes[4] == 0x37u8 || bytes[4] == 0x39u8,
        bytes[5] == 0x61u8,
    ensures
        detected_format(bytes) == ("gif"@, "image/gif"@),
{
    assert(!starts_with(bytes, png_signature())) by {
        if bytes.len() >= 8 {
            assert(bytes.take(8)[0] == bytes[0]);
        }
    }
    assert(!starts_with(bytes, jpeg_signature())) by {
        assert(bytes.take(2)[0] == bytes[0]);
    }
    assert(!starts_with(bytes, bmp_signature())) by {
        assert(bytes.take(2)[0] == bytes[0]);
    }
    if bytes[4] == 0x39u8 {
        assert(bytes.take(6) =~= gif89a_signature());
    } else {
        assert(bytes.take(6) =~= gif87a_signature());
    }
}

/// Bytes that begin with none of the known signatures are plain binary data; in
/// particular every input shorter than two bytes is.
pub proof fn lemma_unknown_is_binary(bytes: Seq<u8>)
    requires
        !(bytes.len() >= 8 && bytes[0] == 0x89u8 && bytes[1] == 0x50u8 && bytes[2] == 0x4Eu8
            && bytes[3] == 0x47u8 && bytes[4] == 0x0Du8 && bytes[5] == 0x0Au8 && bytes[6] == 0x1Au8
            && bytes[7] == 0x0Au8),
        !(bytes.len() >= 2 && bytes[0] == 0xFFu8 && bytes[1] == 0xD8u8),
        !(bytes.len() >= 2 && bytes[0] == 0x42u8 && bytes[1] == 0x4Du8),
        !(bytes.len() >= 6 && bytes[0] == 0x47u8 && bytes[1] == 0x49u8 && bytes[2] == 0x46u8
            && bytes[3] == 0x38u8 && (bytes[4] == 0x37u8 || bytes[4] == 0x39u8) && bytes[5] == 0x61u8),
    ensures
        detected_format(bytes) == ("bin"@, "application/octet-stream"@),
{
    assert(!starts_with(bytes, png_signature())) by {
        if starts_with(bytes, png_signature()) {
            assert forall|i: int| 0 <= i < 8 implies bytes[i] == png_signature()[i] by {
                assert(bytes.take(8)[i] == bytes[i]);
            }
        }
    }
    assert(!starts_with(bytes, jpeg_signature())) by {
        if starts_with(bytes, jpeg_signature()) {
            assert(bytes.take(2)[0] == bytes[0] && bytes.take(2)[1] == bytes[1]);
        }
    }
    assert(!starts_with(bytes, bmp_signature())) by {
        if starts_with(bytes, bmp_signature()) {
            assert(bytes.take(2)[0] == bytes[0] && bytes.take(2)[1] == bytes[1]);
        }
    }
    assert(!starts_with(bytes, gif89a_signature())) by {
        if starts_with(bytes, gif89a_signature()) {
            assert forall|i: int| 0 <= i < 6 implies bytes[i] == gif89a_signature()[i] by {
                assert(bytes.take(6)[i] == bytes[i]);
            }
        }
    }
    assert(!starts_with(bytes, gif87a_signature())) by {
        if starts_with(bytes, gif87a_signature()) {
            assert forall|i: int| 0 <= i < 6 implies bytes[i] == gif87a_signature()[i] by {
                assert(bytes.take(6)[i] == bytes[i]);
            }
        }
    }
}

} // verus!
