//! The words that trailers are made of.
use vstd::prelude::*;
use vstd::utf8::*;

verus! {

/// No two fields have the same id.
pub proof fn lemma_ids_differ()
    ensures
        encode_utf8("size"@) != encode_utf8("mode"@),
        encode_utf8("size"@) != encode_utf8("name"@),
        encode_utf8("size"@) != encode_utf8("type"@),
        encode_utf8("size"@) != encode_utf8("target"@),
        encode_utf8("size"@) != encode_utf8("filter"@),
        encode_utf8("size"@) != encode_utf8("crc"@),
        encode_utf8("mode"@) != encode_utf8("name"@),
        encode_utf8("mode"@) != encode_utf8("type"@),
        encode_utf8("mode"@) != encode_utf8("target"@),
        encode_utf8("mode"@) != encode_utf8("filter"@),
        encode_utf8("mode"@) != encode_utf8("crc"@),
        encode_utf8("name"@) != encode_utf8("type"@),
        encode_utf8("name"@) != encode_utf8("target"@),
        encode_utf8("name"@) != encode_utf8("filter"@),
        encode_utf8("name"@) != encode_utf8("crc"@),
        encode_utf8("type"@) != encode_utf8("target"@),
        encode_utf8("type"@) != encode_utf8("filter"@),
        encode_utf8("type"@) != encode_utf8("crc"@),
        encode_utf8("target"@) != encode_utf8("filter"@),
        encode_utf8("target"@) != encode_utf8("crc"@),
        encode_utf8("filter"@) != encode_utf8("crc"@),
{
    lemma_words();
    assert(encode_utf8("size"@)[0] != encode_utf8("mode"@)[0]);
    assert(encode_utf8("size"@)[0] != encode_utf8("name"@)[0]);
    assert(encode_utf8("size"@)[0] != encode_utf8("type"@)[0]);
    assert(encode_utf8("size"@).len() != encode_utf8("target"@).len());
    assert(encode_utf8("size"@).len() != encode_utf8("filter"@).len());
    assert(encode_utf8("size"@).len() != encode_utf8("crc"@).len());
    assert(encode_utf8("mode"@)[0] != encode_utf8("name"@)[0]);
    assert(encode_utf8("mode"@)[0] != encode_utf8("type"@)[0]);
    assert(encode_utf8("mode"@).len() != encode_utf8("target"@).len());
    assert(encode_utf8("mode"@).len() != encode_utf8("filter"@).len());
    assert(encode_utf8("mode"@).len() != encode_utf8("crc"@).len());
    assert(encode_utf8("name"@)[0] != encode_utf8("type"@)[0]);
    assert(encode_utf8("name"@).len() != encode_utf8("target"@).len());
    assert(encode_utf8("name"@).len() != encode_utf8("filter"@).len());
    assert(encode_utf8("name"@).len() != encode_utf8("crc"@).len());
    assert(encode_utf8("type"@).len() != encode_utf8("target"@).len());
    assert(encode_utf8("type"@).len() != encode_utf8("filter"@).len());
    assert(encode_utf8("type"@).len() != encode_utf8("crc"@).len());
    assert(encode_utf8("target"@)[0] != encode_utf8("filter"@)[0]);
    assert(encode_utf8("target"@).len() != encode_utf8("crc"@).len());
    assert(encode_utf8("filter"@).len() != encode_utf8("crc"@).len());
}

/// The bytes of the words that a trailer is made of.
pub proof fn lemma_words()
    ensures
        encode_utf8("size"@) == seq![0x73u8, 0x69, 0x7a, 0x65],
        encode_utf8("mode"@) == seq![0x6du8, 0x6f, 0x64, 0x65],
        encode_utf8("name"@) == seq![0x6eu8, 0x61, 0x6d, 0x65],
        encode_utf8("type"@) == seq![0x74u8, 0x79, 0x70, 0x65],
        encode_utf8("target"@) == seq![0x74u8, 0x61, 0x72, 0x67, 0x65, 0x74],
        encode_utf8("filter"@) == seq![0x66u8, 0x69, 0x6c, 0x74, 0x65, 0x72],
        encode_utf8("crc"@) == seq![0x63u8, 0x72, 0x63],
        encode_utf8("(size="@) == seq![0x28u8, 0x73, 0x69, 0x7a, 0x65, 0x3d],
        encode_utf8(" name="@) == seq![0x20u8, 0x6e, 0x61, 0x6d, 0x65, 0x3d],
        encode_utf8(" mode="@) == seq![0x20u8, 0x6d, 0x6f, 0x64, 0x65, 0x3d],
        encode_utf8(" filter=\""@) == seq![0x20u8, 0x66, 0x69, 0x6c, 0x74, 0x65, 0x72, 0x3d, 0x22],
        encode_utf8("\" crc="@) == seq![0x22u8, 0x20, 0x63, 0x72, 0x63, 0x3d],
        encode_utf8(")"@) == seq![0x29u8],
        encode_utf8("(name="@) == seq![0x28u8, 0x6e, 0x61, 0x6d, 0x65, 0x3d],
        encode_utf8(" type=\"symlink\" target="@) == seq![
            0x20u8, 0x74, 0x79, 0x70, 0x65, 0x3d, 0x22, 0x73, 0x79, 0x6d, 0x6c, 0x69,
            0x6e, 0x6b, 0x22, 0x20, 0x74, 0x61, 0x72, 0x67, 0x65, 0x74, 0x3d,
        ],
        encode_utf8("file"@) == seq![0x66u8, 0x69, 0x6c, 0x65],
        encode_utf8("none"@) == seq![0x6eu8, 0x6f, 0x6e, 0x65],
        encode_utf8("symlink"@) == seq![0x73u8, 0x79, 0x6d, 0x6c, 0x69, 0x6e, 0x6b],
        encode_utf8("zstd"@) == seq![0x7au8, 0x73, 0x74, 0x64],
        encode_utf8("flate"@) == seq![0x66u8, 0x6c, 0x61, 0x74, 0x65],
        encode_utf8("lzma"@) == seq![0x6cu8, 0x7a, 0x6d, 0x61],
        encode_utf8("lz4"@) == seq![0x6cu8, 0x7a, 0x34],
{
    reveal_strlit("size");
    is_ascii_chars_encode_utf8("size"@);
    assert(encode_utf8("size"@) =~= seq![0x73u8, 0x69, 0x7a, 0x65]);
    reveal_strlit("mode");
    is_ascii_chars_encode_utf8("mode"@);
    assert(encode_utf8("mode"@) =~= seq![0x6du8, 0x6f, 0x64, 0x65]);
    reveal_strlit("name");
    is_ascii_chars_encode_utf8("name"@);
    assert(encode_utf8("name"@) =~= seq![0x6eu8, 0x61, 0x6d, 0x65]);
    reveal_strlit("type");
    is_ascii_chars_encode_utf8("type"@);
    assert(encode_utf8("type"@) =~= seq![0x74u8, 0x79, 0x70, 0x65]);
    reveal_strlit("target");
    is_ascii_chars_encode_utf8("target"@);
    assert(encode_utf8("target"@) =~= seq![0x74u8, 0x61, 0x72, 0x67, 0x65, 0x74]);
    reveal_strlit("filter");
    is_ascii_chars_encode_utf8("filter"@);
    assert(encode_utf8("filter"@) =~= seq![0x66u8, 0x69, 0x6c, 0x74, 0x65, 0x72]);
    reveal_strlit("crc");
    is_ascii_chars_encode_utf8("crc"@);
    assert(encode_utf8("crc"@) =~= seq![0x63u8, 0x72, 0x63]);
    reveal_strlit("(size=");
    is_ascii_chars_encode_utf8("(size="@);
    assert(encode_utf8("(size="@) =~= seq![0x28u8, 0x73, 0x69, 0x7a, 0x65, 0x3d]);
    reveal_strlit(" name=");
    is_ascii_chars_encode_utf8(" name="@);
    assert(encode_utf8(" name="@) =~= seq![0x20u8, 0x6e, 0x61, 0x6d, 0x65, 0x3d]);
    reveal_strlit(" mode=");
    is_ascii_chars_encode_utf8(" mode="@);
    assert(encode_utf8(" mode="@) =~= seq![0x20u8, 0x6d, 0x6f, 0x64, 0x65, 0x3d]);
    reveal_strlit(" filter=\"");
    is_ascii_chars_encode_utf8(" filter=\""@);
    assert(encode_utf8(" filter=\""@) =~= seq![
        0x20u8, 0x66, 0x69, 0x6c, 0x74, 0x65, 0x72, 0x3d, 0x22,
    ]);
    reveal_strlit("\" crc=");
    is_ascii_chars_encode_utf8("\" crc="@);
    assert(encode_utf8("\" crc="@) =~= seq![0x22u8, 0x20, 0x63, 0x72, 0x63, 0x3d]);
    reveal_strlit(")");
    is_ascii_chars_encode_utf8(")"@);
    assert(encode_utf8(")"@) =~= seq![0x29u8]);
    reveal_strlit("(name=");
    is_ascii_chars_encode_utf8("(name="@);
    assert(encode_utf8("(name="@) =~= seq![0x28u8, 0x6e, 0x61, 0x6d, 0x65, 0x3d]);
    reveal_strlit(" type=\"symlink\" target=");
    is_ascii_chars_encode_utf8(" type=\"symlink\" target="@);
    assert(encode_utf8(" type=\"symlink\" target="@) =~= seq![
        0x20u8, 0x74, 0x79, 0x70, 0x65, 0x3d, 0x22, 0x73, 0x79, 0x6d, 0x6c, 0x69,
        0x6e, 0x6b, 0x22, 0x20, 0x74, 0x61, 0x72, 0x67, 0x65, 0x74, 0x3d,
    ]);
    reveal_strlit("file");
    is_ascii_chars_encode_utf8("file"@);
    assert(encode_utf8("file"@) =~= seq![0x66u8, 0x69, 0x6c, 0x65]);
    reveal_strlit("none");
    is_ascii_chars_encode_utf8("none"@);
    assert(encode_utf8("none"@) =~= seq![0x6eu8, 0x6f, 0x6e, 0x65]);
    reveal_strlit("symlink");
    is_ascii_chars_encode_utf8("symlink"@);
    assert(encode_utf8("symlink"@) =~= seq![0x73u8, 0x79, 0x6d, 0x6c, 0x69, 0x6e, 0x6b]);
    reveal_strlit("zstd");
    is_ascii_chars_encode_utf8("zstd"@);
    assert(encode_utf8("zstd"@) =~= seq![0x7au8, 0x73, 0x74, 0x64]);
    reveal_strlit("flate");
    is_ascii_chars_encode_utf8("flate"@);
    assert(encode_utf8("flate"@) =~= seq![0x66u8, 0x6c, 0x61, 0x74, 0x65]);
    reveal_strlit("lzma");
    is_ascii_chars_encode_utf8("lzma"@);
    assert(encode_utf8("lzma"@) =~= seq![0x6cu8, 0x7a, 0x6d, 0x61]);
    reveal_strlit("lz4");
    is_ascii_chars_encode_utf8("lz4"@);
    assert(encode_utf8("lz4"@) =~= seq![0x6cu8, 0x7a, 0x34]);
}

/// No two filters have the same name.
pub proof fn lemma_filters_differ()
    ensures
        encode_utf8("none"@) != encode_utf8("zstd"@),
        encode_utf8("none"@) != encode_utf8("flate"@),
        encode_utf8("none"@) != encode_utf8("lzma"@),
        encode_utf8("none"@) != encode_utf8("lz4"@),
        encode_utf8("zstd"@) != encode_utf8("flate"@),
        encode_utf8("zstd"@) != encode_utf8("lzma"@),
        encode_utf8("zstd"@) != encode_utf8("lz4"@),
        encode_utf8("flate"@) != encode_utf8("lzma"@),
        encode_utf8("flate"@) != encode_utf8("lz4"@),
        encode_utf8("lzma"@) != encode_utf8("lz4"@),
{
    lemma_words();
    assert(encode_utf8("none"@)[0] != encode_utf8("zstd"@)[0]);
    assert(encode_utf8("none"@)[0] != encode_utf8("lzma"@)[0]);
    assert(encode_utf8("zstd"@)[0] != encode_utf8("lzma"@)[0]);
    assert(encode_utf8("none"@).len() == 4);
    assert(encode_utf8("zstd"@).len() == 4);
    assert(encode_utf8("lzma"@).len() == 4);
    assert(encode_utf8("flate"@).len() == 5);
    assert(encode_utf8("lz4"@).len() == 3);
}

} // verus!
