//! Writing scientific-array payloads, and the law that reading one back
//! gives what was written.
use vstd::prelude::*;
use crate::number::{Decimal, format_decimal, parse_decimal, lemma_decimal_round_trip, lemma_padded_digits, push_decimal_text, pow10};
use crate::decode::{
    kw_end, kw_bitpix, kw_naxis1, kw_naxis2, kw_bscale, kw_bzero, kw_blank, card_kw, end_card, find_card, keyword_value,
    header_len, PixelType, Calibration, decode_array_spec, calibration_spec, MAX_TILE_SIZE,
};
use crate::source::push_bytes;

verus! {

pub open spec fn spaces(n: nat) -> Seq<u8> {
    Seq::new(n, |i: int| 32u8)
}

pub open spec fn zeros(n: nat) -> Seq<u8> {
    Seq::new(n, |i: int| 0u8)
}

/// A card `KEYWORD = value`, padded with spaces to 80 bytes.
pub open spec fn card_spec(kw: Seq<u8>, text: Seq<u8>) -> Seq<u8> {
    kw + seq![61u8, 32u8] + text + spaces((70 - text.len()) as nat)
}

pub open spec fn int_text(v: i64) -> Seq<u8> {
    format_decimal(Decimal { mantissa: v, scale: 0 })
}

/// The header cards of a tile, `END` last.
pub open spec fn header_cards(t: PixelType, width: u32, cal: Calibration) -> Seq<Seq<u8>> {
    seq![
        card_spec(kw_bitpix(), int_text(t.bitpix_spec())),
        card_spec(kw_naxis1(), int_text(width as i64)),
        card_spec(kw_naxis2(), int_text(width as i64)),
        card_spec(kw_bscale(), format_decimal(cal.scale)),
        card_spec(kw_bzero(), format_decimal(cal.offset)),
        match cal.blank {
            Some(b) => card_spec(kw_blank(), int_text(b)),
            None => spaces(80),
        },
        kw_end() + spaces(72),
    ]
}

/// Cards one after the other.
pub open spec fn join(cards: Seq<Seq<u8>>) -> Seq<u8>
    decreases cards.len(),
{
    if cards.len() == 0 {
        Seq::empty()
    } else {
        cards[0] + join(cards.drop_first())
    }
}

/// A whole payload: header block, then the pixels padded to a block.
pub open spec fn encode_spec(t: PixelType, width: u32, cal: Calibration, pixels: Seq<u8>) -> Seq<u8> {
    join(header_cards(t, width, cal)) + spaces(2320) + pixels + zeros(((2880 - pixels.len() % 2880) % 2880) as nat)
}

/// What can be written: every number fits the text form.
pub open spec fn encodable(t: PixelType, width: u32, cal: Calibration, pixels: Seq<u8>) -> bool {
    &&& width <= MAX_TILE_SIZE
    &&& cal.scale.valid()
    &&& cal.offset.valid()
    &&& (cal.blank matches Some(b) ==> (Decimal { mantissa: b, scale: 0 }).valid())
    &&& pixels.len() == width * width * t.bytes_spec()
}

pub proof fn lemma_join(cards: Seq<Seq<u8>>)
    requires
        forall|i: int| 0 <= i < cards.len() ==> (#[trigger] cards[i]).len() == 80,
    ensures
        join(cards).len() == 80 * cards.len(),
        forall|i: int| 0 <= i < cards.len() ==> join(cards).subrange(80 * i, 80 * i + 80) == #[trigger] cards[i],
    decreases cards.len(),
{
    if cards.len() > 0 {
        let rest = cards.drop_first();
        lemma_join(rest);
        let j = join(cards);
        assert(j == cards[0] + join(rest));
        assert forall|i: int| 0 <= i < cards.len() implies j.subrange(80 * i, 80 * i + 80) == #[trigger] cards[i] by {
            if i == 0 {
                assert(j.subrange(0, 80) =~= cards[0]);
            } else {
                assert(rest[i - 1] == cards[i]);
                assert(join(rest).subrange(80 * (i - 1), 80 * (i - 1) + 80) == rest[i - 1]);
                assert(j.subrange(80 * i, 80 * i + 80) =~= join(rest).subrange(80 * (i - 1), 80 * (i - 1) + 80));
            }
        }
    }
}

pub proof fn lemma_format_len(d: Decimal)
    requires
        d.valid(),
    ensures
        1 <= format_decimal(d).len() <= 20,
{
    lemma_padded_digits(d);
}

pub proof fn lemma_card(kw: Seq<u8>, d: Decimal)
    requires
        kw.len() == 8,
        d.valid(),
    ensures
        card_spec(kw, format_decimal(d)).len() == 80,
        card_spec(kw, format_decimal(d)).subrange(0, 8) == kw,
        card_spec(kw, format_decimal(d))[8] == 61,
        card_spec(kw, format_decimal(d))[9] == 32,
        parse_decimal(card_spec(kw, format_decimal(d)).subrange(10, 80)) == Some(d),
{
    let text = format_decimal(d);
    lemma_format_len(d);
    let c = card_spec(kw, text);
    assert(c.subrange(0, 8) =~= kw);
    assert(c.subrange(10, 80) =~= text + spaces((70 - text.len()) as nat));
    lemma_decimal_round_trip(d, (70 - text.len()) as nat);
}

fn push_repeat(out: &mut Vec<u8>, b: u8, n: usize)
    ensures
        final(out)@ == old(out)@ + Seq::new(n as nat, |i: int| b),
{
    let mut k: usize = 0;
    while k < n
        invariant
            k <= n,
            out@ == old(out)@ + Seq::new(k as nat, |i: int| b),
        decreases n - k,
    {
        out.push(b);
        k = k + 1;
        proof {
            assert(out@ =~= old(out)@ + Seq::new(k as nat, |i: int| b));
        }
    }
}

fn push_card(out: &mut Vec<u8>, kw: &[u8], d: Decimal)
    requires
        kw@.len() == 8,
        d.valid(),
    ensures
        final(out)@ == old(out)@ + card_spec(kw@, format_decimal(d)),
{
    proof {
        lemma_format_len(d);
    }
    push_bytes(out, kw);
    out.push(61);
    out.push(32);
    let mut text: Vec<u8> = Vec::new();
    push_decimal_text(&mut text, d);
    proof {
        assert(text@ =~= format_decimal(d));
    }
    push_bytes(out, text.as_slice());
    push_repeat(out, 32, 70 - text.len());
    proof {
        assert(final(out)@ =~= old(out)@ + card_spec(kw@, format_decimal(d)));
    }
}

/// Writes a scientific-array payload: header cards, then the pixels, each
/// part padded to whole blocks.
pub fn encode_array(t: PixelType, width: u32, cal: Calibration, pixels: &[u8]) -> (r: Vec<u8>)
    requires
        encodable(t, width, cal, pixels@),
    ensures
        r@ == encode_spec(t, width, cal, pixels@),
{
    proof {
        assert(pow10(18) == 1000000000000000000) by {
            reveal_with_fuel(pow10, 19);
        }
    }
    let bitpix_kw: [u8; 8] = [66, 73, 84, 80, 73, 88, 32, 32];
    let naxis1_kw: [u8; 8] = [78, 65, 88, 73, 83, 49, 32, 32];
    let naxis2_kw: [u8; 8] = [78, 65, 88, 73, 83, 50, 32, 32];
    let bscale_kw: [u8; 8] = [66, 83, 67, 65, 76, 69, 32, 32];
    let bzero_kw: [u8; 8] = [66, 90, 69, 82, 79, 32, 32, 32];
    let blank_kw: [u8; 8] = [66, 76, 65, 78, 75, 32, 32, 32];
    let end_kw: [u8; 8] = [69, 78, 68, 32, 32, 32, 32, 32];
    proof {
        assert(bitpix_kw@ =~= kw_bitpix());
        assert(naxis1_kw@ =~= kw_naxis1());
        assert(naxis2_kw@ =~= kw_naxis2());
        assert(bscale_kw@ =~= kw_bscale());
        assert(bzero_kw@ =~= kw_bzero());
        assert(blank_kw@ =~= kw_blank());
        assert(end_kw@ =~= kw_end());
    }
    let bitpix: i64 = match t {
        PixelType::U8 => 8,
        PixelType::I16 => 16,
        PixelType::I32 => 32,
        PixelType::F32 => -32,
    };
    let ghost cards = header_cards(t, width, cal);
    proof {
        lemma_join7(cards);
    }
    let mut out: Vec<u8> = Vec::new();
    push_card(&mut out, bitpix_kw.as_slice(), Decimal { mantissa: bitpix, scale: 0 });
    proof {
        assert(out@ =~= cards[0]);
    }
    let ghost h0 = out@;
    push_card(&mut out, naxis1_kw.as_slice(), Decimal { mantissa: width as i64, scale: 0 });
    let ghost h1 = out@;
    assert(h1 == h0 + cards[1]);
    push_card(&mut out, naxis2_kw.as_slice(), Decimal { mantissa: width as i64, scale: 0 });
    let ghost h2 = out@;
    assert(h2 == h1 + cards[2]);
    push_card(&mut out, bscale_kw.as_slice(), cal.scale);
    let ghost h3 = out@;
    assert(h3 == h2 + cards[3]);
    push_card(&mut out, bzero_kw.as_slice(), cal.offset);
    let ghost h4 = out@;
    assert(h4 == h3 + cards[4]);
    match cal.blank {
        Some(b) => push_card(&mut out, blank_kw.as_slice(), Decimal { mantissa: b, scale: 0 }),
        None => push_repeat(&mut out, 32, 80),
    }
    let ghost h5 = out@;
    assert(h5 == h4 + cards[5]);
    push_bytes(&mut out, end_kw.as_slice());
    push_repeat(&mut out, 32, 72);
    let ghost h6 = out@;
    assert(h6 =~= h5 + cards[6]);
    assert(h6 == join(cards));
    push_repeat(&mut out, 32, 2320);
    push_bytes(&mut out, pixels);
    push_repeat(&mut out, 0, (2880 - pixels.len() % 2880) % 2880);
    proof {
        assert(out@ =~= encode_spec(t, width, cal, pixels@));
    }
    out
}

#[verifier::rlimit(50)]
proof fn lemma_join7(cards: Seq<Seq<u8>>)
    requires
        cards.len() == 7,
    ensures
        join(cards) == cards[0] + cards[1] + cards[2] + cards[3] + cards[4] + cards[5] + cards[6],
{
    reveal_with_fuel(join, 8);
    let c = cards;
    assert(c.drop_first().drop_first().drop_first().drop_first().drop_first().drop_first().drop_first().len() == 0);
    assert(join(c.drop_first().drop_first().drop_first().drop_first().drop_first().drop_first()) =~= c[6]);
    assert(join(c.drop_first().drop_first().drop_first().drop_first().drop_first()) =~= c[5] + c[6]);
    assert(join(c.drop_first().drop_first().drop_first().drop_first()) =~= c[4] + c[5] + c[6]);
    assert(join(c.drop_first().drop_first().drop_first()) =~= c[3] + c[4] + c[5] + c[6]);
    assert(join(c.drop_first().drop_first()) =~= c[2] + c[3] + c[4] + c[5] + c[6]);
    assert(join(c.drop_first()) =~= c[1] + c[2] + c[3] + c[4] + c[5] + c[6]);
    assert(join(c) =~= c[0] + c[1] + c[2] + c[3] + c[4] + c[5] + c[6]);
}

/// Keyword of the sixth card: `BLANK` when there is a blank value.
pub open spec fn blank_kw(cal: Calibration) -> Seq<u8> {
    match cal.blank {
        Some(b) => kw_blank(),
        None => spaces(8),
    }
}

/// Where each card of a written payload stands, and what it holds.
proof fn lemma_layout(t: PixelType, width: u32, cal: Calibration, pixels: Seq<u8>)
    requires
        encodable(t, width, cal, pixels),
    ensures
        ({
            let p = encode_spec(t, width, cal, pixels);
            let cards = header_cards(t, width, cal);
            &&& forall|i: int| 0 <= i < 7 ==> #[trigger] card_kw(p, i) == cards[i].subrange(0, 8)
            &&& forall|i: int| 0 <= i < 7 ==> p[80 * i + 8] == #[trigger] cards[i][8] && p[80 * i + 9] == cards[i][9] && p.subrange(
                80 * i + 10,
                80 * i + 80,
            ) == cards[i].subrange(10, 80)
            &&& p.len() >= 2880 + pixels.len()
            &&& p.subrange(2880, 2880 + pixels.len() as int) == pixels
        }),
{
    let cards = header_cards(t, width, cal);
    let p = encode_spec(t, width, cal, pixels);
    let bp = Decimal { mantissa: t.bitpix_spec(), scale: 0 };
    let wd = Decimal { mantissa: width as i64, scale: 0 };
    assert(pow10(18) == 1000000000000000000) by {
        reveal_with_fuel(pow10, 19);
    }
    lemma_format_len(bp);
    lemma_format_len(wd);
    lemma_format_len(cal.scale);
    lemma_format_len(cal.offset);
    match cal.blank {
        Some(b) => {
            lemma_format_len(Decimal { mantissa: b, scale: 0 });
        },
        None => {},
    }
    assert forall|i: int| 0 <= i < cards.len() implies (#[trigger] cards[i]).len() == 80 by {}
    lemma_join(cards);
    let h = join(cards);
    assert forall|i: int| 0 <= i < 7 implies p.subrange(80 * i, 80 * i + 80) == #[trigger] cards[i] by {
        assert(p.subrange(80 * i, 80 * i + 80) =~= h.subrange(80 * i, 80 * i + 80));
    }
    assert forall|i: int| 0 <= i < 7 implies #[trigger] card_kw(p, i) == cards[i].subrange(0, 8) by {
        assert(card_kw(p, i) =~= p.subrange(80 * i, 80 * i + 80).subrange(0, 8));
    }
    assert forall|i: int| 0 <= i < 7 implies p[80 * i + 8] == #[trigger] cards[i][8] && p[80 * i + 9] == cards[i][9]
        && p.subrange(80 * i + 10, 80 * i + 80) == cards[i].subrange(10, 80) by {
        let c = p.subrange(80 * i, 80 * i + 80);
        assert(c[8] == p[80 * i + 8]);
        assert(c[9] == p[80 * i + 9]);
        assert(p.subrange(80 * i + 10, 80 * i + 80) =~= c.subrange(10, 80));
    }
    assert(p.subrange(2880, 2880 + pixels.len() as int) =~= pixels);
}

/// The lookups in a header whose seven card keywords are those written.
proof fn lemma_lookups(p: Seq<u8>, k5: Seq<u8>)
    requires
        card_kw(p, 0) == kw_bitpix(),
        card_kw(p, 1) == kw_naxis1(),
        card_kw(p, 2) == kw_naxis2(),
        card_kw(p, 3) == kw_bscale(),
        card_kw(p, 4) == kw_bzero(),
        card_kw(p, 5) == k5,
        card_kw(p, 6) == kw_end(),
        k5 == kw_blank() || k5 == spaces(8),
        p.len() >= 560,
    ensures
        end_card(p, 0) == Some(6nat),
        find_card(p, kw_bitpix(), 0, 6) == Some(0nat),
        find_card(p, kw_naxis1(), 0, 6) == Some(1nat),
        find_card(p, kw_naxis2(), 0, 6) == Some(2nat),
        find_card(p, kw_bscale(), 0, 6) == Some(3nat),
        find_card(p, kw_bzero(), 0, 6) == Some(4nat),
        k5 == kw_blank() ==> find_card(p, kw_blank(), 0, 6) == Some(5nat),
        k5 != kw_blank() ==> find_card(p, kw_blank(), 0, 6) is None,
{
    assert(k5[0] == 66 || k5[0] == 32);
    assert(k5[1] == 76 || k5[1] == 32);
    assert(kw_bitpix()[0] != kw_end()[0] && kw_naxis1()[0] != kw_end()[0] && kw_naxis2()[0] != kw_end()[0]
        && kw_bscale()[0] != kw_end()[0] && kw_bzero()[0] != kw_end()[0] && k5[0] != kw_end()[0]);
    reveal_with_fuel(end_card, 8);
    assert(kw_naxis1()[0] != kw_bitpix()[0] && kw_naxis2()[5] != kw_naxis1()[5] && kw_bscale()[1] != kw_bitpix()[1]
        && kw_bscale()[0] != kw_naxis1()[0] && kw_bzero()[1] != kw_bitpix()[1] && kw_bzero()[0] != kw_naxis1()[0]
        && kw_bzero()[1] != kw_bscale()[1] && kw_blank()[1] != kw_bitpix()[1] && kw_blank()[0] != kw_naxis1()[0]
        && kw_blank()[1] != kw_bscale()[1] && kw_blank()[1] != kw_bzero()[1]);
    reveal_with_fuel(find_card, 8);
    if k5 != kw_blank() {
        assert(k5[1] != kw_blank()[1]);
    }
}

proof fn lemma_value_at(p: Seq<u8>, kw: Seq<u8>, i: nat, card: Seq<u8>, d: Decimal)
    requires
        find_card(p, kw, 0, 6) == Some(i),
        p.len() >= 80 * i + 80,
        p[80 * i as int + 8] == card[8],
        p[80 * i as int + 9] == card[9],
        p.subrange(80 * i as int + 10, 80 * i as int + 80) == card.subrange(10, 80),
        card[8] == 61,
        card[9] == 32,
        parse_decimal(card.subrange(10, 80)) == Some(d),
    ensures
        keyword_value(p, kw, 6) == Some(d),
{
}

/// Reading back a written payload gives its pixel type, pixels and
/// calibration exactly.
#[verifier::rlimit(50)]
pub proof fn lemma_encode_decode(t: PixelType, width: u32, cal: Calibration, pixels: Seq<u8>)
    requires
        encodable(t, width, cal, pixels),
    ensures
        decode_array_spec(encode_spec(t, width, cal, pixels), width) == Ok::<(PixelType, Seq<u8>, Calibration), crate::decode::DecodeError>((t, pixels, cal)),
{
    let cards = header_cards(t, width, cal);
    let p = encode_spec(t, width, cal, pixels);
    let bp = Decimal { mantissa: t.bitpix_spec(), scale: 0 };
    let wd = Decimal { mantissa: width as i64, scale: 0 };
    assert(pow10(18) == 1000000000000000000) by {
        reveal_with_fuel(pow10, 19);
    }
    lemma_card(kw_bitpix(), bp);
    lemma_card(kw_naxis1(), wd);
    lemma_card(kw_naxis2(), wd);
    lemma_card(kw_bscale(), cal.scale);
    lemma_card(kw_bzero(), cal.offset);
    match cal.blank {
        Some(b) => {
            lemma_card(kw_blank(), Decimal { mantissa: b, scale: 0 });
        },
        None => {
            assert(cards[5].subrange(0, 8) =~= spaces(8));
        },
    }
    assert(cards[6].subrange(0, 8) =~= kw_end());
    lemma_layout(t, width, cal, pixels);
    assert(card_kw(p, 0) == cards[0].subrange(0, 8));
    assert(card_kw(p, 1) == cards[1].subrange(0, 8));
    assert(card_kw(p, 2) == cards[2].subrange(0, 8));
    assert(card_kw(p, 3) == cards[3].subrange(0, 8));
    assert(card_kw(p, 4) == cards[4].subrange(0, 8));
    assert(card_kw(p, 5) == cards[5].subrange(0, 8));
    assert(card_kw(p, 6) == cards[6].subrange(0, 8));
    lemma_lookups(p, blank_kw(cal));
    lemma_value_at(p, kw_bitpix(), 0, cards[0], bp);
    lemma_value_at(p, kw_naxis1(), 1, cards[1], wd);
    lemma_value_at(p, kw_naxis2(), 2, cards[2], wd);
    lemma_value_at(p, kw_bscale(), 3, cards[3], cal.scale);
    lemma_value_at(p, kw_bzero(), 4, cards[4], cal.offset);
    match cal.blank {
        Some(b) => {
            lemma_value_at(p, kw_blank(), 5, cards[5], Decimal { mantissa: b, scale: 0 });
        },
        None => {},
    }
    assert(calibration_spec(p, 6) == cal);
    assert(header_len(6) == 2880);
}

} // verus!
