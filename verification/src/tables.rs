//! Read-only tables shared by the encoder and the decoder: interpolation
//! weights, partition-assignment patterns, partition bit-masks, and the
//! per-partition anchor ("fixup") texel indices.

use vstd::prelude::*;

verus! {

/// Interpolation weight for an index at the given index width.
pub open spec fn spec_unquant_value(bits: u32, index: int) -> i32 {
    if bits == 2 {
        if index == 0 { 0 } else if index == 1 { 21 } else if index == 2 { 43 } else if index == 3 { 64 } else if index == 4 { 0 } else if index == 5 { 0 } else if index == 6 { 0 } else if index == 7 { 0 } else if index == 8 { 0 } else if index == 9 { 0 } else if index == 10 { 0 } else if index == 11 { 0 } else if index == 12 { 0 } else if index == 13 { 0 } else if index == 14 { 0 } else { 0 }
    } else if bits == 3 {
        if index == 0 { 0 } else if index == 1 { 9 } else if index == 2 { 18 } else if index == 3 { 27 } else if index == 4 { 37 } else if index == 5 { 46 } else if index == 6 { 55 } else if index == 7 { 64 } else if index == 8 { 0 } else if index == 9 { 0 } else if index == 10 { 0 } else if index == 11 { 0 } else if index == 12 { 0 } else if index == 13 { 0 } else if index == 14 { 0 } else { 0 }
    } else {
        if index == 0 { 0 } else if index == 1 { 4 } else if index == 2 { 9 } else if index == 3 { 13 } else if index == 4 { 17 } else if index == 5 { 21 } else if index == 6 { 26 } else if index == 7 { 30 } else if index == 8 { 34 } else if index == 9 { 38 } else if index == 10 { 43 } else if index == 11 { 47 } else if index == 12 { 51 } else if index == 13 { 55 } else if index == 14 { 60 } else { 64 }
    }
}

/// Interpolation weight for a quantization index: 2-, 3- and 4-bit index
/// widths each have their own fixed weight table, every weight at most 64.
pub fn get_unquant_value(bits: u32, index: i32) -> (r: i32)
    requires
        0 <= index < 16,
    ensures
        r == spec_unquant_value(bits, index as int),
        0 <= r <= 64,
{
    if bits == 2 {
        match index {
            0 => 0,
            1 => 21,
            2 => 43,
            3 => 64,
            4 => 0,
            5 => 0,
            6 => 0,
            7 => 0,
            8 => 0,
            9 => 0,
            10 => 0,
            11 => 0,
            12 => 0,
            13 => 0,
            14 => 0,
            _ => 0,
        }
    } else if bits == 3 {
        match index {
            0 => 0,
            1 => 9,
            2 => 18,
            3 => 27,
            4 => 37,
            5 => 46,
            6 => 55,
            7 => 64,
            8 => 0,
            9 => 0,
            10 => 0,
            11 => 0,
            12 => 0,
            13 => 0,
            14 => 0,
            _ => 0,
        }
    } else {
        match index {
            0 => 0,
            1 => 4,
            2 => 9,
            3 => 13,
            4 => 17,
            5 => 21,
            6 => 26,
            7 => 30,
            8 => 34,
            9 => 38,
            10 => 43,
            11 => 47,
            12 => 51,
            13 => 55,
            14 => 60,
            _ => 64,
        }
    }
}

/// Table value behind `pattern`.
pub open spec fn spec_pattern(i: int) -> u32 {
    if i == 0 { 0x50505050 }
    else if i == 1 { 0x40404040 }
    else if i == 2 { 0x54545454 }
    else if i == 3 { 0x54505040 }
    else if i == 4 { 0x50404000 }
    else if i == 5 { 0x55545450 }
    else if i == 6 { 0x55545040 }
    else if i == 7 { 0x54504000 }
    else if i == 8 { 0x50400000 }
    else if i == 9 { 0x55555450 }
    else if i == 10 { 0x55544000 }
    else if i == 11 { 0x54400000 }
    else if i == 12 { 0x55555440 }
    else if i == 13 { 0x55550000 }
    else if i == 14 { 0x55555500 }
    else if i == 15 { 0x55000000 }
    else if i == 16 { 0x55150100 }
    else if i == 17 { 0x00004054 }
    else if i == 18 { 0x15010000 }
    else if i == 19 { 0x00405054 }
    else if i == 20 { 0x00004050 }
    else if i == 21 { 0x15050100 }
    else if i == 22 { 0x05010000 }
    else if i == 23 { 0x40505054 }
    else if i == 24 { 0x00404050 }
    else if i == 25 { 0x05010100 }
    else if i == 26 { 0x14141414 }
    else if i == 27 { 0x05141450 }
    else if i == 28 { 0x01155440 }
    else if i == 29 { 0x00555500 }
    else if i == 30 { 0x15014054 }
    else if i == 31 { 0x05414150 }
    else if i == 32 { 0x44444444 }
    else if i == 33 { 0x55005500 }
    else if i == 34 { 0x11441144 }
    else if i == 35 { 0x05055050 }
    else if i == 36 { 0x05500550 }
    else if i == 37 { 0x11114444 }
    else if i == 38 { 0x41144114 }
    else if i == 39 { 0x44111144 }
    else if i == 40 { 0x15055054 }
    else if i == 41 { 0x01055040 }
    else if i == 42 { 0x05041050 }
    else if i == 43 { 0x05455150 }
    else if i == 44 { 0x14414114 }
    else if i == 45 { 0x50050550 }
    else if i == 46 { 0x41411414 }
    else if i == 47 { 0x00141400 }
    else if i == 48 { 0x00041504 }
    else if i == 49 { 0x00105410 }
    else if i == 50 { 0x10541000 }
    else if i == 51 { 0x04150400 }
    else if i == 52 { 0x50410514 }
    else if i == 53 { 0x41051450 }
    else if i == 54 { 0x05415014 }
    else if i == 55 { 0x14054150 }
    else if i == 56 { 0x41050514 }
    else if i == 57 { 0x41505014 }
    else if i == 58 { 0x40011554 }
    else if i == 59 { 0x54150140 }
    else if i == 60 { 0x50505500 }
    else if i == 61 { 0x00555050 }
    else if i == 62 { 0x15151010 }
    else if i == 63 { 0x54540404 }
    else if i == 64 { 0xAA685050 }
    else if i == 65 { 0x6A5A5040 }
    else if i == 66 { 0x5A5A4200 }
    else if i == 67 { 0x5450A0A8 }
    else if i == 68 { 0xA5A50000 }
    else if i == 69 { 0xA0A05050 }
    else if i == 70 { 0x5555A0A0 }
    else if i == 71 { 0x5A5A5050 }
    else if i == 72 { 0xAA550000 }
    else if i == 73 { 0xAA555500 }
    else if i == 74 { 0xAAAA5500 }
    else if i == 75 { 0x90909090 }
    else if i == 76 { 0x94949494 }
    else if i == 77 { 0xA4A4A4A4 }
    else if i == 78 { 0xA9A59450 }
    else if i == 79 { 0x2A0A4250 }
    else if i == 80 { 0xA5945040 }
    else if i == 81 { 0x0A425054 }
    else if i == 82 { 0xA5A5A500 }
    else if i == 83 { 0x55A0A0A0 }
    else if i == 84 { 0xA8A85454 }
    else if i == 85 { 0x6A6A4040 }
    else if i == 86 { 0xA4A45000 }
    else if i == 87 { 0x1A1A0500 }
    else if i == 88 { 0x0050A4A4 }
    else if i == 89 { 0xAAA59090 }
    else if i == 90 { 0x14696914 }
    else if i == 91 { 0x69691400 }
    else if i == 92 { 0xA08585A0 }
    else if i == 93 { 0xAA821414 }
    else if i == 94 { 0x50A4A450 }
    else if i == 95 { 0x6A5A0200 }
    else if i == 96 { 0xA9A58000 }
    else if i == 97 { 0x5090A0A8 }
    else if i == 98 { 0xA8A09050 }
    else if i == 99 { 0x24242424 }
    else if i == 100 { 0x00AA5500 }
    else if i == 101 { 0x24924924 }
    else if i == 102 { 0x24499224 }
    else if i == 103 { 0x50A50A50 }
    else if i == 104 { 0x500AA550 }
    else if i == 105 { 0xAAAA4444 }
    else if i == 106 { 0x66660000 }
    else if i == 107 { 0xA5A0A5A0 }
    else if i == 108 { 0x50A050A0 }
    else if i == 109 { 0x69286928 }
    else if i == 110 { 0x44AAAA44 }
    else if i == 111 { 0x66666600 }
    else if i == 112 { 0xAA444444 }
    else if i == 113 { 0x54A854A8 }
    else if i == 114 { 0x95809580 }
    else if i == 115 { 0x96969600 }
    else if i == 116 { 0xA85454A8 }
    else if i == 117 { 0x80959580 }
    else if i == 118 { 0xAA141414 }
    else if i == 119 { 0x96960000 }
    else if i == 120 { 0xAAAA1414 }
    else if i == 121 { 0xA05050A0 }
    else if i == 122 { 0xA0A5A5A0 }
    else if i == 123 { 0x96000000 }
    else if i == 124 { 0x40804080 }
    else if i == 125 { 0xA9A8A9A8 }
    else if i == 126 { 0xAAAAAA44 }
    else { 0x2A4A5254 }
}

/// Packed partition pattern: two bits per texel give the texel's subset.
/// The first 64 entries are the two-subset shapes, the last 64 the
/// three-subset shapes.
pub fn get_pattern(part_id: i32) -> (r: u32)
    requires
        0 <= part_id < 128,
    ensures
        r == spec_pattern(part_id as int),
{
    match part_id {
        0 => 0x50505050,
        1 => 0x40404040,
        2 => 0x54545454,
        3 => 0x54505040,
        4 => 0x50404000,
        5 => 0x55545450,
        6 => 0x55545040,
        7 => 0x54504000,
        8 => 0x50400000,
        9 => 0x55555450,
        10 => 0x55544000,
        11 => 0x54400000,
        12 => 0x55555440,
        13 => 0x55550000,
        14 => 0x55555500,
        15 => 0x55000000,
        16 => 0x55150100,
        17 => 0x00004054,
        18 => 0x15010000,
        19 => 0x00405054,
        20 => 0x00004050,
        21 => 0x15050100,
        22 => 0x05010000,
        23 => 0x40505054,
        24 => 0x00404050,
        25 => 0x05010100,
        26 => 0x14141414,
        27 => 0x05141450,
        28 => 0x01155440,
        29 => 0x00555500,
        30 => 0x15014054,
        31 => 0x05414150,
        32 => 0x44444444,
        33 => 0x55005500,
        34 => 0x11441144,
        35 => 0x05055050,
        36 => 0x05500550,
        37 => 0x11114444,
        38 => 0x41144114,
        39 => 0x44111144,
        40 => 0x15055054,
        41 => 0x01055040,
        42 => 0x05041050,
        43 => 0x05455150,
        44 => 0x14414114,
        45 => 0x50050550,
        46 => 0x41411414,
        47 => 0x00141400,
        48 => 0x00041504,
        49 => 0x00105410,
        50 => 0x10541000,
        51 => 0x04150400,
        52 => 0x50410514,
        53 => 0x41051450,
        54 => 0x05415014,
        55 => 0x14054150,
        56 => 0x41050514,
        57 => 0x41505014,
        58 => 0x40011554,
        59 => 0x54150140,
        60 => 0x50505500,
        61 => 0x00555050,
        62 => 0x15151010,
        63 => 0x54540404,
        64 => 0xAA685050,
        65 => 0x6A5A5040,
        66 => 0x5A5A4200,
        67 => 0x5450A0A8,
        68 => 0xA5A50000,
        69 => 0xA0A05050,
        70 => 0x5555A0A0,
        71 => 0x5A5A5050,
        72 => 0xAA550000,
        73 => 0xAA555500,
        74 => 0xAAAA5500,
        75 => 0x90909090,
        76 => 0x94949494,
        77 => 0xA4A4A4A4,
        78 => 0xA9A59450,
        79 => 0x2A0A4250,
        80 => 0xA5945040,
        81 => 0x0A425054,
        82 => 0xA5A5A500,
        83 => 0x55A0A0A0,
        84 => 0xA8A85454,
        85 => 0x6A6A4040,
        86 => 0xA4A45000,
        87 => 0x1A1A0500,
        88 => 0x0050A4A4,
        89 => 0xAAA59090,
        90 => 0x14696914,
        91 => 0x69691400,
        92 => 0xA08585A0,
        93 => 0xAA821414,
        94 => 0x50A4A450,
        95 => 0x6A5A0200,
        96 => 0xA9A58000,
        97 => 0x5090A0A8,
        98 => 0xA8A09050,
        99 => 0x24242424,
        100 => 0x00AA5500,
        101 => 0x24924924,
        102 => 0x24499224,
        103 => 0x50A50A50,
        104 => 0x500AA550,
        105 => 0xAAAA4444,
        106 => 0x66660000,
        107 => 0xA5A0A5A0,
        108 => 0x50A050A0,
        109 => 0x69286928,
        110 => 0x44AAAA44,
        111 => 0x66666600,
        112 => 0xAA444444,
        113 => 0x54A854A8,
        114 => 0x95809580,
        115 => 0x96969600,
        116 => 0xA85454A8,
        117 => 0x80959580,
        118 => 0xAA141414,
        119 => 0x96960000,
        120 => 0xAAAA1414,
        121 => 0xA05050A0,
        122 => 0xA0A5A5A0,
        123 => 0x96000000,
        124 => 0x40804080,
        125 => 0xA9A8A9A8,
        126 => 0xAAAAAA44,
        _ => 0x2A4A5254,
    }
}

/// Table value behind `pattern_mask_packed`.
pub open spec fn spec_pattern_mask_packed(i: int) -> u32 {
    if i == 0 { 0xCCCC3333 }
    else if i == 1 { 0x88887777 }
    else if i == 2 { 0xEEEE1111 }
    else if i == 3 { 0xECC81337 }
    else if i == 4 { 0xC880377F }
    else if i == 5 { 0xFEEC0113 }
    else if i == 6 { 0xFEC80137 }
    else if i == 7 { 0xEC80137F }
    else if i == 8 { 0xC80037FF }
    else if i == 9 { 0xFFEC0013 }
    else if i == 10 { 0xFE80017F }
    else if i == 11 { 0xE80017FF }
    else if i == 12 { 0xFFE80017 }
    else if i == 13 { 0xFF0000FF }
    else if i == 14 { 0xFFF0000F }
    else if i == 15 { 0xF0000FFF }
    else if i == 16 { 0xF71008EF }
    else if i == 17 { 0x008EFF71 }
    else if i == 18 { 0x71008EFF }
    else if i == 19 { 0x08CEF731 }
    else if i == 20 { 0x008CFF73 }
    else if i == 21 { 0x73108CEF }
    else if i == 22 { 0x3100CEFF }
    else if i == 23 { 0x8CCE7331 }
    else if i == 24 { 0x088CF773 }
    else if i == 25 { 0x3110CEEF }
    else if i == 26 { 0x66669999 }
    else if i == 27 { 0x366CC993 }
    else if i == 28 { 0x17E8E817 }
    else if i == 29 { 0x0FF0F00F }
    else if i == 30 { 0x718E8E71 }
    else if i == 31 { 0x399CC663 }
    else if i == 32 { 0xAAAA5555 }
    else if i == 33 { 0xF0F00F0F }
    else if i == 34 { 0x5A5AA5A5 }
    else if i == 35 { 0x33CCCC33 }
    else if i == 36 { 0x3C3CC3C3 }
    else if i == 37 { 0x55AAAA55 }
    else if i == 38 { 0x96966969 }
    else if i == 39 { 0xA55A5AA5 }
    else if i == 40 { 0x73CE8C31 }
    else if i == 41 { 0x13C8EC37 }
    else if i == 42 { 0x324CCDB3 }
    else if i == 43 { 0x3BDCC423 }
    else if i == 44 { 0x69969669 }
    else if i == 45 { 0xC33C3CC3 }
    else if i == 46 { 0x99666699 }
    else if i == 47 { 0x0660F99F }
    else if i == 48 { 0x0272FD8D }
    else if i == 49 { 0x04E4FB1B }
    else if i == 50 { 0x4E40B1BF }
    else if i == 51 { 0x2720D8DF }
    else if i == 52 { 0xC93636C9 }
    else if i == 53 { 0x936C6C93 }
    else if i == 54 { 0x39C6C639 }
    else if i == 55 { 0x639C9C63 }
    else if i == 56 { 0x93366CC9 }
    else if i == 57 { 0x9CC66339 }
    else if i == 58 { 0x817E7E81 }
    else if i == 59 { 0xE71818E7 }
    else if i == 60 { 0xCCF0330F }
    else if i == 61 { 0x0FCCF033 }
    else if i == 62 { 0x774488BB }
    else if i == 63 { 0xEE2211DD }
    else if i == 64 { 0x08CC0133 }
    else if i == 65 { 0x8CC80037 }
    else if i == 66 { 0xCC80006F }
    else if i == 67 { 0xEC001331 }
    else if i == 68 { 0x330000FF }
    else if i == 69 { 0x00CC3333 }
    else if i == 70 { 0xFF000033 }
    else if i == 71 { 0xCCCC0033 }
    else if i == 72 { 0x0F0000FF }
    else if i == 73 { 0x0FF0000F }
    else if i == 74 { 0x00F0000F }
    else if i == 75 { 0x44443333 }
    else if i == 76 { 0x66661111 }
    else if i == 77 { 0x22221111 }
    else if i == 78 { 0x136C0013 }
    else if i == 79 { 0x008C8C63 }
    else if i == 80 { 0x36C80137 }
    else if i == 81 { 0x08CEC631 }
    else if i == 82 { 0x3330000F }
    else if i == 83 { 0xF0000333 }
    else if i == 84 { 0x00EE1111 }
    else if i == 85 { 0x88880077 }
    else if i == 86 { 0x22C0113F }
    else if i == 87 { 0x443088CF }
    else if i == 88 { 0x0C22F311 }
    else if i == 89 { 0x03440033 }
    else if i == 90 { 0x69969009 }
    else if i == 91 { 0x9960009F }
    else if i == 92 { 0x03303443 }
    else if i == 93 { 0x00660699 }
    else if i == 94 { 0xC22C3113 }
    else if i == 95 { 0x8C0000EF }
    else if i == 96 { 0x1300007F }
    else if i == 97 { 0xC4003331 }
    else if i == 98 { 0x004C1333 }
    else if i == 99 { 0x22229999 }
    else if i == 100 { 0x00F0F00F }
    else if i == 101 { 0x24929249 }
    else if i == 102 { 0x29429429 }
    else if i == 103 { 0xC30C30C3 }
    else if i == 104 { 0xC03C3C03 }
    else if i == 105 { 0x00AA0055 }
    else if i == 106 { 0xAA0000FF }
    else if i == 107 { 0x30300303 }
    else if i == 108 { 0xC0C03333 }
    else if i == 109 { 0x90900909 }
    else if i == 110 { 0xA00A5005 }
    else if i == 111 { 0xAAA0000F }
    else if i == 112 { 0x0AAA0555 }
    else if i == 113 { 0xE0E01111 }
    else if i == 114 { 0x70700707 }
    else if i == 115 { 0x6660000F }
    else if i == 116 { 0x0EE01111 }
    else if i == 117 { 0x07707007 }
    else if i == 118 { 0x06660999 }
    else if i == 119 { 0x660000FF }
    else if i == 120 { 0x00660099 }
    else if i == 121 { 0x0CC03333 }
    else if i == 122 { 0x03303003 }
    else if i == 123 { 0x60000FFF }
    else if i == 124 { 0x80807777 }
    else if i == 125 { 0x10100101 }
    else if i == 126 { 0x000A0005 }
    else { 0x08CE8421 }
}

/// Mask of the texels assigned to subset `j` of a partition: the packed
/// table stores subset 0's mask in the low half-word and subset 1's in the
/// high one; subset 2 owns whatever texels the other two do not.
pub fn get_pattern_mask(part_id: i32, j: u32) -> (r: u32)
    requires
        0 <= part_id < 128,
    ensures
        r == spec_pattern_mask(part_id as int, j),
{
    let mask_packed = match part_id {
        0 => 0xCCCC3333,
        1 => 0x88887777,
        2 => 0xEEEE1111,
        3 => 0xECC81337,
        4 => 0xC880377F,
        5 => 0xFEEC0113,
        6 => 0xFEC80137,
        7 => 0xEC80137F,
        8 => 0xC80037FF,
        9 => 0xFFEC0013,
        10 => 0xFE80017F,
        11 => 0xE80017FF,
        12 => 0xFFE80017,
        13 => 0xFF0000FF,
        14 => 0xFFF0000F,
        15 => 0xF0000FFF,
        16 => 0xF71008EF,
        17 => 0x008EFF71,
        18 => 0x71008EFF,
        19 => 0x08CEF731,
        20 => 0x008CFF73,
        21 => 0x73108CEF,
        22 => 0x3100CEFF,
        23 => 0x8CCE7331,
        24 => 0x088CF773,
        25 => 0x3110CEEF,
        26 => 0x66669999,
        27 => 0x366CC993,
        28 => 0x17E8E817,
        29 => 0x0FF0F00F,
        30 => 0x718E8E71,
        31 => 0x399CC663,
        32 => 0xAAAA5555,
        33 => 0xF0F00F0F,
        34 => 0x5A5AA5A5,
        35 => 0x33CCCC33,
        36 => 0x3C3CC3C3,
        37 => 0x55AAAA55,
        38 => 0x96966969,
        39 => 0xA55A5AA5,
        40 => 0x73CE8C31,
        41 => 0x13C8EC37,
        42 => 0x324CCDB3,
        43 => 0x3BDCC423,
        44 => 0x69969669,
        45 => 0xC33C3CC3,
        46 => 0x99666699,
        47 => 0x0660F99F,
        48 => 0x0272FD8D,
        49 => 0x04E4FB1B,
        50 => 0x4E40B1BF,
        51 => 0x2720D8DF,
        52 => 0xC93636C9,
        53 => 0x936C6C93,
        54 => 0x39C6C639,
        55 => 0x639C9C63,
        56 => 0x93366CC9,
        57 => 0x9CC66339,
        58 => 0x817E7E81,
        59 => 0xE71818E7,
        60 => 0xCCF0330F,
        61 => 0x0FCCF033,
        62 => 0x774488BB,
        63 => 0xEE2211DD,
        64 => 0x08CC0133,
        65 => 0x8CC80037,
        66 => 0xCC80006F,
        67 => 0xEC001331,
        68 => 0x330000FF,
        69 => 0x00CC3333,
        70 => 0xFF000033,
        71 => 0xCCCC0033,
        72 => 0x0F0000FF,
        73 => 0x0FF0000F,
        74 => 0x00F0000F,
        75 => 0x44443333,
        76 => 0x66661111,
        77 => 0x22221111,
        78 => 0x136C0013,
        79 => 0x008C8C63,
        80 => 0x36C80137,
        81 => 0x08CEC631,
        82 => 0x3330000F,
        83 => 0xF0000333,
        84 => 0x00EE1111,
        85 => 0x88880077,
        86 => 0x22C0113F,
        87 => 0x443088CF,
        88 => 0x0C22F311,
        89 => 0x03440033,
        90 => 0x69969009,
        91 => 0x9960009F,
        92 => 0x03303443,
        93 => 0x00660699,
        94 => 0xC22C3113,
        95 => 0x8C0000EF,
        96 => 0x1300007F,
        97 => 0xC4003331,
        98 => 0x004C1333,
        99 => 0x22229999,
        100 => 0x00F0F00F,
        101 => 0x24929249,
        102 => 0x29429429,
        103 => 0xC30C30C3,
        104 => 0xC03C3C03,
        105 => 0x00AA0055,
        106 => 0xAA0000FF,
        107 => 0x30300303,
        108 => 0xC0C03333,
        109 => 0x90900909,
        110 => 0xA00A5005,
        111 => 0xAAA0000F,
        112 => 0x0AAA0555,
        113 => 0xE0E01111,
        114 => 0x70700707,
        115 => 0x6660000F,
        116 => 0x0EE01111,
        117 => 0x07707007,
        118 => 0x06660999,
        119 => 0x660000FF,
        120 => 0x00660099,
        121 => 0x0CC03333,
        122 => 0x03303003,
        123 => 0x60000FFF,
        124 => 0x80807777,
        125 => 0x10100101,
        126 => 0x000A0005,
        _ => 0x08CE8421,
    };
    let mask0 = mask_packed & 0xFFFF;
    let mask1 = mask_packed >> 16;
    if j == 2 {
        !mask0 & !mask1
    } else if j == 0 {
        mask0
    } else {
        mask1
    }
}

/// The texel mask of subset `j`, derived from the packed mask table.
pub open spec fn spec_pattern_mask(i: int, j: u32) -> u32 {
    let packed = spec_pattern_mask_packed(i);
    let mask0 = packed & 0xFFFF;
    let mask1 = packed >> 16;
    if j == 2 {
        !mask0 & !mask1
    } else if j == 0 {
        mask0
    } else {
        mask1
    }
}

/// Table value behind `skip_packed`.
pub open spec fn spec_skip_packed(i: int) -> u32 {
    if i == 0 { 0xF0 }
    else if i == 1 { 0xF0 }
    else if i == 2 { 0xF0 }
    else if i == 3 { 0xF0 }
    else if i == 4 { 0xF0 }
    else if i == 5 { 0xF0 }
    else if i == 6 { 0xF0 }
    else if i == 7 { 0xF0 }
    else if i == 8 { 0xF0 }
    else if i == 9 { 0xF0 }
    else if i == 10 { 0xF0 }
    else if i == 11 { 0xF0 }
    else if i == 12 { 0xF0 }
    else if i == 13 { 0xF0 }
    else if i == 14 { 0xF0 }
    else if i == 15 { 0xF0 }
    else if i == 16 { 0xF0 }
    else if i == 17 { 0x20 }
    else if i == 18 { 0x80 }
    else if i == 19 { 0x20 }
    else if i == 20 { 0x20 }
    else if i == 21 { 0x80 }
    else if i == 22 { 0x80 }
    else if i == 23 { 0xF0 }
    else if i == 24 { 0x20 }
    else if i == 25 { 0x80 }
    else if i == 26 { 0x20 }
    else if i == 27 { 0x20 }
    else if i == 28 { 0x80 }
    else if i == 29 { 0x80 }
    else if i == 30 { 0x20 }
    else if i == 31 { 0x20 }
    else if i == 32 { 0xF0 }
    else if i == 33 { 0xF0 }
    else if i == 34 { 0x60 }
    else if i == 35 { 0x80 }
    else if i == 36 { 0x20 }
    else if i == 37 { 0x80 }
    else if i == 38 { 0xF0 }
    else if i == 39 { 0xF0 }
    else if i == 40 { 0x20 }
    else if i == 41 { 0x80 }
    else if i == 42 { 0x20 }
    else if i == 43 { 0x20 }
    else if i == 44 { 0x20 }
    else if i == 45 { 0xF0 }
    else if i == 46 { 0xF0 }
    else if i == 47 { 0x60 }
    else if i == 48 { 0x60 }
    else if i == 49 { 0x20 }
    else if i == 50 { 0x60 }
    else if i == 51 { 0x80 }
    else if i == 52 { 0xF0 }
    else if i == 53 { 0xF0 }
    else if i == 54 { 0x20 }
    else if i == 55 { 0x20 }
    else if i == 56 { 0xF0 }
    else if i == 57 { 0xF0 }
    else if i == 58 { 0xF0 }
    else if i == 59 { 0xF0 }
    else if i == 60 { 0xF0 }
    else if i == 61 { 0x20 }
    else if i == 62 { 0x20 }
    else if i == 63 { 0xF0 }
    else if i == 64 { 0x3F }
    else if i == 65 { 0x38 }
    else if i == 66 { 0xF8 }
    else if i == 67 { 0xF3 }
    else if i == 68 { 0x8F }
    else if i == 69 { 0x3F }
    else if i == 70 { 0xF3 }
    else if i == 71 { 0xF8 }
    else if i == 72 { 0x8F }
    else if i == 73 { 0x8F }
    else if i == 74 { 0x6F }
    else if i == 75 { 0x6F }
    else if i == 76 { 0x6F }
    else if i == 77 { 0x5F }
    else if i == 78 { 0x3F }
    else if i == 79 { 0x38 }
    else if i == 80 { 0x3F }
    else if i == 81 { 0x38 }
    else if i == 82 { 0x8F }
    else if i == 83 { 0xF3 }
    else if i == 84 { 0x3F }
    else if i == 85 { 0x38 }
    else if i == 86 { 0x6F }
    else if i == 87 { 0xA8 }
    else if i == 88 { 0x53 }
    else if i == 89 { 0x8F }
    else if i == 90 { 0x86 }
    else if i == 91 { 0x6A }
    else if i == 92 { 0x8F }
    else if i == 93 { 0x5F }
    else if i == 94 { 0xFA }
    else if i == 95 { 0xF8 }
    else if i == 96 { 0x8F }
    else if i == 97 { 0xF3 }
    else if i == 98 { 0x3F }
    else if i == 99 { 0x5A }
    else if i == 100 { 0x6A }
    else if i == 101 { 0xA8 }
    else if i == 102 { 0x89 }
    else if i == 103 { 0xFA }
    else if i == 104 { 0xF6 }
    else if i == 105 { 0x3F }
    else if i == 106 { 0xF8 }
    else if i == 107 { 0x5F }
    else if i == 108 { 0xF3 }
    else if i == 109 { 0xF6 }
    else if i == 110 { 0xF6 }
    else if i == 111 { 0xF8 }
    else if i == 112 { 0x3F }
    else if i == 113 { 0xF3 }
    else if i == 114 { 0x5F }
    else if i == 115 { 0x5F }
    else if i == 116 { 0x5F }
    else if i == 117 { 0x8F }
    else if i == 118 { 0x5F }
    else if i == 119 { 0xAF }
    else if i == 120 { 0x5F }
    else if i == 121 { 0xAF }
    else if i == 122 { 0x8F }
    else if i == 123 { 0xDF }
    else if i == 124 { 0xF3 }
    else if i == 125 { 0xCF }
    else if i == 126 { 0x3F }
    else { 0x38 }
}

/// Anchor ("fixup") texel index of each subset: subset 0's anchor is texel
/// 0; the packed table gives subsets 1 and 2 theirs, each at most 15.
pub fn get_skips(part_id: i32) -> (r: [u32; 3])
    requires
        0 <= part_id < 128,
    ensures
        r[0] == 0,
        r[1] == spec_skip_packed(part_id as int) >> 4u32,
        r[2] == spec_skip_packed(part_id as int) & 15,
        r[1] <= 15 && r[2] <= 15,
{
    let skip_packed: u32 = match part_id {
        0 => 0xF0,
        1 => 0xF0,
        2 => 0xF0,
        3 => 0xF0,
        4 => 0xF0,
        5 => 0xF0,
        6 => 0xF0,
        7 => 0xF0,
        8 => 0xF0,
        9 => 0xF0,
        10 => 0xF0,
        11 => 0xF0,
        12 => 0xF0,
        13 => 0xF0,
        14 => 0xF0,
        15 => 0xF0,
        16 => 0xF0,
        17 => 0x20,
        18 => 0x80,
        19 => 0x20,
        20 => 0x20,
        21 => 0x80,
        22 => 0x80,
        23 => 0xF0,
        24 => 0x20,
        25 => 0x80,
        26 => 0x20,
        27 => 0x20,
        28 => 0x80,
        29 => 0x80,
        30 => 0x20,
        31 => 0x20,
        32 => 0xF0,
        33 => 0xF0,
        34 => 0x60,
        35 => 0x80,
        36 => 0x20,
        37 => 0x80,
        38 => 0xF0,
        39 => 0xF0,
        40 => 0x20,
        41 => 0x80,
        42 => 0x20,
        43 => 0x20,
        44 => 0x20,
        45 => 0xF0,
        46 => 0xF0,
        47 => 0x60,
        48 => 0x60,
        49 => 0x20,
        50 => 0x60,
        51 => 0x80,
        52 => 0xF0,
        53 => 0xF0,
        54 => 0x20,
        55 => 0x20,
        56 => 0xF0,
        57 => 0xF0,
        58 => 0xF0,
        59 => 0xF0,
        60 => 0xF0,
        61 => 0x20,
        62 => 0x20,
        63 => 0xF0,
        64 => 0x3F,
        65 => 0x38,
        66 => 0xF8,
        67 => 0xF3,
        68 => 0x8F,
        69 => 0x3F,
        70 => 0xF3,
        71 => 0xF8,
        72 => 0x8F,
        73 => 0x8F,
        74 => 0x6F,
        75 => 0x6F,
        76 => 0x6F,
        77 => 0x5F,
        78 => 0x3F,
        79 => 0x38,
        80 => 0x3F,
        81 => 0x38,
        82 => 0x8F,
        83 => 0xF3,
        84 => 0x3F,
        85 => 0x38,
        86 => 0x6F,
        87 => 0xA8,
        88 => 0x53,
        89 => 0x8F,
        90 => 0x86,
        91 => 0x6A,
        92 => 0x8F,
        93 => 0x5F,
        94 => 0xFA,
        95 => 0xF8,
        96 => 0x8F,
        97 => 0xF3,
        98 => 0x3F,
        99 => 0x5A,
        100 => 0x6A,
        101 => 0xA8,
        102 => 0x89,
        103 => 0xFA,
        104 => 0xF6,
        105 => 0x3F,
        106 => 0xF8,
        107 => 0x5F,
        108 => 0xF3,
        109 => 0xF6,
        110 => 0xF6,
        111 => 0xF8,
        112 => 0x3F,
        113 => 0xF3,
        114 => 0x5F,
        115 => 0x5F,
        116 => 0x5F,
        117 => 0x8F,
        118 => 0x5F,
        119 => 0xAF,
        120 => 0x5F,
        121 => 0xAF,
        122 => 0x8F,
        123 => 0xDF,
        124 => 0xF3,
        125 => 0xCF,
        126 => 0x3F,
        _ => 0x38,
    };
    proof {
        let p = spec_skip_packed(part_id as int);
        assert((p >> 4u32) <= 15 && (p & 15) <= 15) by (bit_vector)
            requires
                p <= 0xFF,
        ;
        assert(spec_skip_packed(part_id as int) <= 0xFF);
    }
    [0, skip_packed >> 4, skip_packed & 15]
}

} // verus!
