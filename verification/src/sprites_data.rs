//! Static sprite metadata: the load-time table mapping each sprite kind
//! to its image sub-rectangle, its size in world units, and its
//! precomputed convex silhouette.

use vstd::prelude::*;

use crate::pixels::PixelBuffer;
use crate::util::{Dimensions, FX_ONE, FxPoint, Point, SPRITE_COORD_LIMIT, trunc_div};

verus! {

/// The closed set of sprite kinds the game draws.
#[derive(Debug, PartialEq, Eq, Hash, Copy, Clone, Structural)]
pub enum SpriteObject {
    Background,
    Player,
    PlayerBullet,
    EnemyBullet,
}

/// Load-time data of one sprite kind. Offsets and sizes are fixed-point
/// fractions of the full image (for rendering) or of the world unit
/// square; the convex silhouette is centered on the sprite's origin, in
/// fixed-point world units.
#[derive(Debug)]
pub struct SpriteData {
    pub image_offset: FxPoint,
    pub image_size: FxPoint,
    pub virtual_size: FxPoint,
    pub frames_count: u32,
    pub convex: Vec<FxPoint>,
}

impl SpriteData {
    /// Every silhouette vertex lies within the sprite coordinate bound,
    /// so scaling and rotating it cannot overflow.
    pub open spec fn wf(&self) -> bool {
        forall|i: int|
            0 <= i < self.convex@.len() ==> {
                &&& -SPRITE_COORD_LIMIT <= (#[trigger] self.convex@[i]).spec_x()
                    <= SPRITE_COORD_LIMIT
                &&& -SPRITE_COORD_LIMIT <= self.convex@[i].spec_y() <= SPRITE_COORD_LIMIT
            }
    }

    pub fn image_offset(&self) -> (r: FxPoint)
        ensures
            r == self.image_offset,
    {
        self.image_offset
    }

    pub fn image_size(&self) -> (r: FxPoint)
        ensures
            r == self.image_size,
    {
        self.image_size
    }

    pub fn virtual_size(&self) -> (r: FxPoint)
        ensures
            r == self.virtual_size,
    {
        self.virtual_size
    }

    pub fn frames_count(&self) -> (r: u32)
        ensures
            r == self.frames_count,
    {
        self.frames_count
    }

    pub fn convex(&self) -> (r: &Vec<FxPoint>)
        ensures
            r == &self.convex,
    {
        &self.convex
    }
}

/// A fresh vector holding the same points.
fn copy_points(v: &Vec<FxPoint>) -> (r: Vec<FxPoint>)
    ensures
        r@ == v@,
{
    let mut out: Vec<FxPoint> = Vec::new();
    let n = v.len();
    let mut i: usize = 0;
    while i < n
        invariant
            0 <= i <= n,
            n == v@.len(),
            out@ == v@.subrange(0, i as int),
        decreases n - i,
    {
        out.push(v[i]);
        proof {
            assert(out@ =~= v@.subrange(0, i + 1));
        }
        i = i + 1;
    }
    proof {
        assert(out@ =~= v@);
    }
    out
}

impl Clone for SpriteData {
    /// The copy carries the same fields and the same silhouette.
    fn clone(&self) -> (r: Self)
        ensures
            r.image_offset == self.image_offset,
            r.image_size == self.image_size,
            r.virtual_size == self.virtual_size,
            r.frames_count == self.frames_count,
            r.convex@ == self.convex@,
    {
        SpriteData {
            image_offset: self.image_offset,
            image_size: self.image_size,
            virtual_size: self.virtual_size,
            frames_count: self.frames_count,
            convex: copy_points(&self.convex),
        }
    }
}

// ---------------------------------------------------------------------------
// The description text
// ---------------------------------------------------------------------------
//
// One line per sprite: a name and five unsigned integers (offset-x,
// offset-y, width, height, frame count), separated by single spaces.
// Empty lines are skipped; anything else that does not parse, names an
// unknown sprite, or places the sprite outside the image is a load-time
// error.

/// Splitting a byte sequence at every occurrence of `sep`, keeping empty
/// pieces: one more piece than separators.
pub open spec fn split_seq(s: Seq<u8>, sep: u8) -> Seq<Seq<u8>>
    decreases s.len(),
{
    if s.len() == 0 {
        seq![Seq::<u8>::empty()]
    } else {
        let rest = split_seq(s.drop_last(), sep);
        if s.last() == sep {
            rest.push(Seq::empty())
        } else {
            rest.update(rest.len() - 1, rest.last().push(s.last()))
        }
    }
}

/// An ASCII decimal digit.
pub open spec fn is_dec_digit(c: u8) -> bool {
    48 <= c <= 57
}

/// The value of an ASCII digit string.
pub open spec fn dec_value(s: Seq<u8>) -> int
    decreases s.len(),
{
    if s.len() == 0 {
        0
    } else {
        dec_value(s.drop_last()) * 10 + (s.last() - 48)
    }
}

/// The digits of a decimal field, after an optional leading plus sign.
pub open spec fn dec_digits(s: Seq<u8>) -> Seq<u8> {
    if s.len() > 0 && s[0] == 43 {
        s.skip(1)
    } else {
        s
    }
}

/// Whether a field is a valid `u32`: an optional plus sign, then one or
/// more digits, with a value that fits.
pub open spec fn u32_field(s: Seq<u8>) -> bool {
    let d = dec_digits(s);
    &&& d.len() > 0
    &&& forall|i: int| 0 <= i < d.len() ==> is_dec_digit(#[trigger] d[i])
    &&& dec_value(d) <= u32::MAX
}

/// The value of a valid `u32` field.
pub open spec fn u32_value(s: Seq<u8>) -> int {
    dec_value(dec_digits(s))
}

/// The sprite kind a name field denotes, if any.
pub open spec fn spec_name_of(s: Seq<u8>) -> Option<SpriteObject> {
    if s == "BACKGROUND"@.map_values(|c: char| c as u8) {
        Some(SpriteObject::Background)
    } else if s == "PLAYER"@.map_values(|c: char| c as u8) {
        Some(SpriteObject::Player)
    } else if s == "PLAYER_BULLET"@.map_values(|c: char| c as u8) {
        Some(SpriteObject::PlayerBullet)
    } else if s == "ENEMY_BULLET"@.map_values(|c: char| c as u8) {
        Some(SpriteObject::EnemyBullet)
    } else {
        None
    }
}

/// The six fields of one description line.
pub ghost struct LineData {
    pub object: SpriteObject,
    pub ox: int,
    pub oy: int,
    pub w: int,
    pub h: int,
    pub frames: int,
}

/// A line without its trailing carriage return, if it has one.
pub open spec fn strip_cr(l: Seq<u8>) -> Seq<u8> {
    if l.len() > 0 && l.last() == 13 {
        l.drop_last()
    } else {
        l
    }
}

/// The parse of one description line: exactly six space-separated
/// fields, a known name, and five `u32` values.
pub open spec fn parse_line(l: Seq<u8>) -> Option<LineData> {
    let words = split_seq(l, 32);
    if words.len() != 6 {
        None
    } else {
        match spec_name_of(words[0]) {
            None => None,
            Some(object) => {
                if u32_field(words[1]) && u32_field(words[2]) && u32_field(words[3]) && u32_field(
                    words[4],
                ) && u32_field(words[5]) {
                    Some(
                        LineData {
                            object,
                            ox: u32_value(words[1]),
                            oy: u32_value(words[2]),
                            w: u32_value(words[3]),
                            h: u32_value(words[4]),
                            frames: u32_value(words[5]),
                        },
                    )
                } else {
                    None
                }
            },
        }
    }
}

/// Whether a parsed line places its sprite inside the image, with a
/// size the silhouette scan accepts and within four virtual screens
/// (which bounds its world-space hull).
pub open spec fn line_valid(ld: LineData, img_w: int, img_h: int, vw: int, vh: int) -> bool {
    &&& ld.ox + ld.w <= img_w
    &&& ld.oy + ld.h <= img_h
    &&& 2 <= ld.w <= crate::convex::PIXEL_LIMIT as int
    &&& 2 <= ld.h <= crate::convex::PIXEL_LIMIT as int
    &&& ld.w <= 4 * vw
    &&& ld.h <= 4 * vh
}

/// A description line that stops the load: nonempty but unparsable or
/// invalid.
pub open spec fn line_bad(l: Seq<u8>, img_w: int, img_h: int, vw: int, vh: int) -> bool {
    let l2 = strip_cr(l);
    &&& l2.len() > 0
    &&& match parse_line(l2) {
        None => true,
        Some(ld) => !line_valid(ld, img_w, img_h, vw, vh),
    }
}

/// The last line of the text that declares sprite kind `k`.
pub open spec fn last_decl(lines: Seq<Seq<u8>>, k: SpriteObject) -> Option<LineData>
    decreases lines.len(),
{
    if lines.len() == 0 {
        None
    } else {
        match parse_line(strip_cr(lines.last())) {
            Some(ld) => if ld.object == k {
                Some(ld)
            } else {
                last_decl(lines.drop_last(), k)
            },
            None => last_decl(lines.drop_last(), k),
        }
    }
}

/// The conversion of one silhouette point with its direction marker into
/// centered fixed-point world units.
pub open spec fn conv_vertex(pr: ((int, int), (int, int)), w: int, h: int, vw: int, vh: int) -> (
    int,
    int,
) {
    let px = pr.0.0 + pr.1.0 - w / 2;
    let py = h / 2 - pr.0.1 - pr.1.1;
    (trunc_div(px * (FX_ONE as int), vw), trunc_div(py * (FX_ONE as int), vh))
}

/// What the table must store for a declared sprite: offsets and sizes
/// as fixed-point fractions, and the silhouette of its sub-image
/// converted to centered world units.
pub open spec fn sd_matches_line(
    sd: SpriteData,
    pb: &PixelBuffer,
    ld: LineData,
    img_w: int,
    img_h: int,
    vw: int,
    vh: int,
) -> bool {
    let mask = pb.mask(ld.ox, ld.oy, ld.w, ld.h);
    &&& sd.image_offset.spec_x() == ld.ox * (FX_ONE as int) / img_w
    &&& sd.image_offset.spec_y() == (img_h - ld.oy - ld.h) * (FX_ONE as int) / img_h
    &&& sd.image_size.spec_x() == ld.w * (FX_ONE as int) / img_w
    &&& sd.image_size.spec_y() == ld.h * (FX_ONE as int) / img_h
    &&& sd.virtual_size.spec_x() == ld.w * (FX_ONE as int) / vw
    &&& sd.virtual_size.spec_y() == ld.h * (FX_ONE as int) / vh
    &&& sd.frames_count == ld.frames
    &&& crate::collision::hull64(sd.convex@) == crate::convex::convex_spec(
        mask,
        ld.w,
        ld.h,
    ).map_values(|pr: ((int, int), (int, int))| conv_vertex(pr, ld.w, ld.h, vw, vh))
}

/// One table slot agrees with the description text: absent when no line
/// declares the kind, else holding the data of the last declaring line.
pub open spec fn slot_ok(
    slot: Option<SpriteData>,
    pb: &PixelBuffer,
    lines: Seq<Seq<u8>>,
    img_w: int,
    img_h: int,
    vw: int,
    vh: int,
    k: SpriteObject,
) -> bool {
    match last_decl(lines, k) {
        None => slot is None,
        Some(ld) => match slot {
            Some(sd) => sd_matches_line(sd, pb, ld, img_w, img_h, vw, vh),
            None => false,
        },
    }
}

/// The first `n` bytes, as a fresh vector.
fn copy_prefix(v: &Vec<u8>, n: usize) -> (r: Vec<u8>)
    requires
        n <= v@.len(),
    ensures
        r@ == v@.subrange(0, n as int),
{
    let mut out: Vec<u8> = Vec::new();
    let mut i: usize = 0;
    while i < n
        invariant
            0 <= i <= n <= v@.len(),
            out@ == v@.subrange(0, i as int),
        decreases n - i,
    {
        out.push(v[i]);
        proof {
            assert(out@ =~= v@.subrange(0, i + 1));
        }
        i = i + 1;
    }
    out
}

/// The line without a trailing carriage return.
fn strip_cr_bytes(l: &Vec<u8>) -> (r: Vec<u8>)
    ensures
        r@ == strip_cr(l@),
{
    let n = l.len();
    let keep: usize = if n > 0 && l[n - 1] == 13 {
        n - 1
    } else {
        n
    };
    let r = copy_prefix(l, keep);
    proof {
        if n > 0 && l@[n - 1] == 13 {
            assert(r@ =~= l@.drop_last());
        } else {
            assert(r@ =~= l@);
        }
    }
    r
}

/// The view of a list of byte vectors.
pub open spec fn vecs_view(parts: Seq<Vec<u8>>) -> Seq<Seq<u8>> {
    parts.map_values(|v: Vec<u8>| v@)
}

proof fn lemma_vecs_view_push(parts: Seq<Vec<u8>>, e: Vec<u8>)
    ensures
        vecs_view(parts.push(e)) == vecs_view(parts).push(e@),
{
    assert(vecs_view(parts.push(e)) =~= vecs_view(parts).push(e@));
}

/// Splits a byte string at every occurrence of `sep`, keeping empty
/// pieces.
#[verifier::loop_isolation(false)]
fn split_bytes(s: &Vec<u8>, sep: u8) -> (r: Vec<Vec<u8>>)
    ensures
        vecs_view(r@) == split_seq(s@, sep),
{
    let mut parts: Vec<Vec<u8>> = Vec::new();
    let mut cur: Vec<u8> = Vec::new();
    let n = s.len();
    let mut i: usize = 0;
    proof {
        assert(s@.take(0) =~= Seq::<u8>::empty());
        assert(vecs_view(parts@).push(cur@) =~= split_seq(s@.take(0), sep));
    }
    while i < n
        invariant
            0 <= i <= n,
            vecs_view(parts@).push(cur@) == split_seq(s@.take(i as int), sep),
        decreases n - i,
    {
        let ghost old_parts = parts@;
        let ghost old_cur = cur@;
        let ghost old_spec = split_seq(s@.take(i as int), sep);
        proof {
            assert(s@.take(i + 1).drop_last() =~= s@.take(i as int));
            assert(s@.take(i + 1).last() == s@[i as int]);
        }
        let c = s[i];
        if c == sep {
            let ghost cur_vec = cur;
            parts.push(cur);
            cur = Vec::new();
            proof {
                lemma_vecs_view_push(old_parts, cur_vec);
                assert(vecs_view(parts@) =~= vecs_view(old_parts).push(old_cur));
                assert(vecs_view(parts@).push(cur@) =~= old_spec.push(Seq::<u8>::empty()));
            }
        } else {
            cur.push(c);
            proof {
                assert(old_spec.len() == vecs_view(old_parts).len() + 1);
                assert(old_spec.last() == old_cur);
                assert(vecs_view(parts@).push(cur@) =~= old_spec.update(
                    old_spec.len() - 1,
                    old_cur.push(c),
                ));
            }
        }
        i = i + 1;
    }
    proof {
        assert(s@.take(n as int) =~= s@);
    }
    parts.push(cur);
    proof {
        lemma_vecs_view_push(parts@.drop_last(), cur);
        assert(parts@.drop_last().push(cur) =~= parts@);
        assert(vecs_view(parts@) =~= split_seq(s@, sep));
    }
    parts
}

/// The sprite kind a name field denotes, if any.
fn parse_sprite_name(word: &Vec<u8>) -> (r: Option<SpriteObject>)
    ensures
        r == spec_name_of(word@),
{
    proof {
        reveal_strlit("BACKGROUND");
        reveal_strlit("PLAYER");
        reveal_strlit("PLAYER_BULLET");
        reveal_strlit("ENEMY_BULLET");
    }
    let ghost bg = "BACKGROUND"@.map_values(|c: char| c as u8);
    let ghost pl = "PLAYER"@.map_values(|c: char| c as u8);
    let ghost pb = "PLAYER_BULLET"@.map_values(|c: char| c as u8);
    let ghost eb = "ENEMY_BULLET"@.map_values(|c: char| c as u8);
    let is_bg = word.len() == 10 && word[0] == 66 && word[1] == 65 && word[2] == 67 && word[3]
        == 75 && word[4] == 71 && word[5] == 82 && word[6] == 79 && word[7] == 85 && word[8] == 78
        && word[9] == 68;
    let is_pl = word.len() == 6 && word[0] == 80 && word[1] == 76 && word[2] == 65 && word[3] == 89
        && word[4] == 69 && word[5] == 82;
    let is_pb = word.len() == 13 && word[0] == 80 && word[1] == 76 && word[2] == 65 && word[3]
        == 89 && word[4] == 69 && word[5] == 82 && word[6] == 95 && word[7] == 66 && word[8] == 85
        && word[9] == 76 && word[10] == 76 && word[11] == 69 && word[12] == 84;
    let is_eb = word.len() == 12 && word[0] == 69 && word[1] == 78 && word[2] == 69 && word[3]
        == 77 && word[4] == 89 && word[5] == 95 && word[6] == 66 && word[7] == 85 && word[8] == 76
        && word[9] == 76 && word[10] == 69 && word[11] == 84;
    proof {
        if is_bg {
            assert(word@ =~= bg);
        }
        if word@ == bg {
            assert(is_bg);
        }
        if is_pl {
            assert(word@ =~= pl);
        }
        if word@ == pl {
            assert(is_pl);
        }
        if is_pb {
            assert(word@ =~= pb);
        }
        if word@ == pb {
            assert(is_pb);
        }
        if is_eb {
            assert(word@ =~= eb);
        }
        if word@ == eb {
            assert(is_eb);
        }
    }
    if is_bg {
        Some(SpriteObject::Background)
    } else if is_pl {
        Some(SpriteObject::Player)
    } else if is_pb {
        Some(SpriteObject::PlayerBullet)
    } else if is_eb {
        Some(SpriteObject::EnemyBullet)
    } else {
        None
    }
}

proof fn lemma_dec_value_nonneg(d: Seq<u8>)
    requires
        forall|i: int| 0 <= i < d.len() ==> is_dec_digit(#[trigger] d[i]),
    ensures
        dec_value(d) >= 0,
    decreases d.len(),
{
    if d.len() > 0 {
        lemma_dec_value_nonneg(d.drop_last());
    }
}

/// A digit string is worth at least any of its prefixes.
proof fn lemma_dec_value_mono(d: Seq<u8>, m: nat)
    requires
        forall|i: int| 0 <= i < d.len() ==> is_dec_digit(#[trigger] d[i]),
        m <= d.len(),
    ensures
        dec_value(d.take(m as int)) <= dec_value(d),
    decreases d.len() - m,
{
    if m < d.len() {
        lemma_dec_value_mono(d, (m + 1) as nat);
        let dm = d.take(m as int);
        let dm1 = d.take(m as int + 1);
        assert(dm1.drop_last() =~= dm);
        lemma_dec_value_nonneg(dm);
        assert(dec_value(dm) * 10 >= dec_value(dm)) by (nonlinear_arith)
            requires
                dec_value(dm) >= 0,
        ;
    } else {
        assert(d.take(m as int) =~= d);
    }
}

/// Parses an unsigned decimal field: an optional plus sign, then one or
/// more digits. Succeeds exactly when the field is well-formed and its
/// value fits in a `u32`.
#[verifier::loop_isolation(false)]
fn parse_u32(s: &Vec<u8>) -> (r: Option<u32>)
    ensures
        (match r {
            Option::Some(v) => u32_field(s@) && v == u32_value(s@),
            Option::None => !u32_field(s@),
        }),
{
    let n = s.len();
    let start: usize = if n > 0 && s[0] == 43 {
        1
    } else {
        0
    };
    let ghost digits = dec_digits(s@);
    proof {
        if n > 0 && s@[0] == 43 {
            assert(digits =~= s@.skip(1));
        } else {
            assert(digits =~= s@);
        }
        assert(digits.len() == n - start);
    }
    if start == n {
        return None;
    }
    let mut acc: u64 = 0;
    let mut k: usize = start;
    proof {
        assert(digits.take(0) =~= Seq::<u8>::empty());
    }
    while k < n
        invariant
            start <= k <= n,
            acc == dec_value(digits.take((k - start) as int)),
            0 <= acc <= u32::MAX,
            forall|i: int| 0 <= i < k - start ==> is_dec_digit(#[trigger] digits[i]),
        decreases n - k,
    {
        let ghost m = (k - start) as int;
        let c = s[k];
        proof {
            assert(digits[m] == s@[k as int]);
        }
        if !(c >= 48 && c <= 57) {
            proof {
                assert(!is_dec_digit(digits[m]));
            }
            return None;
        }
        proof {
            assert(digits.take(m + 1).drop_last() =~= digits.take(m));
            assert(digits.take(m + 1).last() == digits[m]);
        }
        let next: u64 = acc * 10 + ((c - 48) as u64);
        if next > 0xFFFF_FFFF {
            proof {
                assert(next == dec_value(digits.take(m + 1)));
                if u32_field(s@) {
                    lemma_dec_value_mono(digits, (m + 1) as nat);
                }
            }
            return None;
        }
        acc = next;
        k = k + 1;
    }
    proof {
        assert(digits.take((n - start) as int) =~= digits);
    }
    Some(acc as u32)
}

/// Converts a centered pixel offset into fixed-point world units: the
/// offset as a fraction of the virtual dimension `vd`, rounded toward
/// zero.
fn to_world(v: i64, vd: u32) -> (r: i64)
    requires
        1 <= vd,
        -3 * (vd as int) <= v <= 3 * (vd as int),
    ensures
        r == trunc_div(v * (FX_ONE as int), vd as int),
        -3 * (FX_ONE as int) <= r <= 3 * (FX_ONE as int),
{
    proof {
        assert(v * (FX_ONE as int) <= (3 * (vd as int)) * (FX_ONE as int) && v * (FX_ONE as int)
            >= (-3 * (vd as int)) * (FX_ONE as int)) by (nonlinear_arith)
            requires
                -3 * (vd as int) <= v <= 3 * (vd as int),
        ;
        assert((3 * (vd as int)) * (FX_ONE as int) == (vd as int) * (3 * (FX_ONE as int)))
            by (nonlinear_arith);
    }
    let num: i64 = v * FX_ONE;
    proof {
        let d = vd as int;
        if num >= 0 {
            vstd::arithmetic::div_mod::lemma_div_is_ordered(num as int, d * (3 * (FX_ONE as int)), d);
            vstd::arithmetic::div_mod::lemma_div_by_multiple(3 * (FX_ONE as int), d);
            vstd::arithmetic::div_mod::lemma_div_pos_is_pos(num as int, d);
        } else {
            vstd::arithmetic::div_mod::lemma_div_is_ordered(
                (-num) as int,
                d * (3 * (FX_ONE as int)),
                d,
            );
            vstd::arithmetic::div_mod::lemma_div_by_multiple(3 * (FX_ONE as int), d);
            vstd::arithmetic::div_mod::lemma_div_pos_is_pos((-num) as int, d);
        }
    }
    num / (vd as i64)
}

/// The load-time sprite table: the decoded sprite sheet and the data of
/// each sprite kind that the description text declared.
pub struct SpritesData {
    image: PixelBuffer,
    background: Option<SpriteData>,
    player: Option<SpriteData>,
    player_bullet: Option<SpriteData>,
    enemy_bullet: Option<SpriteData>,
}

impl SpritesData {
    /// Every declared sprite is well-formed.
    pub open spec fn wf(&self) -> bool {
        &&& (self.spec_sprite_data(SpriteObject::Background) matches Some(sd) ==> sd.wf())
        &&& (self.spec_sprite_data(SpriteObject::Player) matches Some(sd) ==> sd.wf())
        &&& (self.spec_sprite_data(SpriteObject::PlayerBullet) matches Some(sd) ==> sd.wf())
        &&& (self.spec_sprite_data(SpriteObject::EnemyBullet) matches Some(sd) ==> sd.wf())
    }

    pub closed spec fn spec_sprite_data(&self, object: SpriteObject) -> Option<SpriteData> {
        match object {
            SpriteObject::Background => self.background,
            SpriteObject::Player => self.player,
            SpriteObject::PlayerBullet => self.player_bullet,
            SpriteObject::EnemyBullet => self.enemy_bullet,
        }
    }

    pub closed spec fn spec_image(&self) -> &PixelBuffer {
        &self.image
    }

    /// The data of one sprite kind, if the description declared it.
    pub fn sprite_data(&self, object: SpriteObject) -> (r: Option<&SpriteData>)
        ensures
            (match r {
                Option::Some(sd) => self.spec_sprite_data(object) == Some(*sd),
                Option::None => self.spec_sprite_data(object) is None,
            }),
    {
        match object {
            SpriteObject::Background => self.background.as_ref(),
            SpriteObject::Player => self.player.as_ref(),
            SpriteObject::PlayerBullet => self.player_bullet.as_ref(),
            SpriteObject::EnemyBullet => self.enemy_bullet.as_ref(),
        }
    }

    /// The decoded sprite sheet.
    pub fn image_buffer(&self) -> (r: &PixelBuffer)
        ensures
            r == self.spec_image(),
    {
        &self.image
    }

    /// The sprite sheet's dimensions in pixels.
    pub fn image_size(&self) -> (r: Dimensions)
        requires
            self.spec_image().wf(),
        ensures
            r.spec_x() == self.spec_image().spec_width(),
            r.spec_y() == self.spec_image().spec_height(),
    {
        Point::new(self.image.width(), self.image.height())
    }

    /// The sprite kinds the description declared, in a fixed order.
    pub open spec fn spec_sprite_objects(&self) -> Seq<SpriteObject> {
        (if self.spec_sprite_data(SpriteObject::Background) is Some {
            seq![SpriteObject::Background]
        } else {
            Seq::empty()
        }) + (if self.spec_sprite_data(SpriteObject::Player) is Some {
            seq![SpriteObject::Player]
        } else {
            Seq::empty()
        }) + (if self.spec_sprite_data(SpriteObject::PlayerBullet) is Some {
            seq![SpriteObject::PlayerBullet]
        } else {
            Seq::empty()
        }) + (if self.spec_sprite_data(SpriteObject::EnemyBullet) is Some {
            seq![SpriteObject::EnemyBullet]
        } else {
            Seq::empty()
        })
    }

    /// The sprite kinds the description declared.
    pub fn sprite_objects(&self) -> (r: Vec<SpriteObject>)
        ensures
            r@ == self.spec_sprite_objects(),
    {
        let mut r: Vec<SpriteObject> = Vec::new();
        if self.background.is_some() {
            r.push(SpriteObject::Background);
        }
        if self.player.is_some() {
            r.push(SpriteObject::Player);
        }
        if self.player_bullet.is_some() {
            r.push(SpriteObject::PlayerBullet);
        }
        if self.enemy_bullet.is_some() {
            r.push(SpriteObject::EnemyBullet);
        }
        proof {
            assert(r@ =~= self.spec_sprite_objects());
        }
        r
    }

    /// Builds the sprite table from a decoded sprite sheet and the
    /// description text. Succeeds exactly when every nonempty line of
    /// the text parses and places its sprite inside the image (a fatal
    /// load-time error otherwise); each declared sprite kind then holds
    /// the data of its last declaring line, silhouette included.
    #[verifier::loop_isolation(false)]
    pub fn from_image_buffer(
        image: PixelBuffer,
        descr: &Vec<u8>,
        virtual_dimensions: Dimensions,
    ) -> (r: Option<SpritesData>)
        requires
            image.wf(),
            1 <= virtual_dimensions.spec_x(),
            1 <= virtual_dimensions.spec_y(),
        ensures
            (match r {
                Option::Some(sd) => {
                    &&& sd.wf()
                    &&& *sd.spec_image() == image
                    &&& forall|li: int|
                        0 <= li < split_seq(descr@, 10).len() ==> !line_bad(
                            #[trigger] split_seq(descr@, 10)[li],
                            image.spec_width(),
                            image.spec_height(),
                            virtual_dimensions.spec_x() as int,
                            virtual_dimensions.spec_y() as int,
                        )
                    &&& forall|k: SpriteObject| #[trigger]
                        slot_ok(
                            sd.spec_sprite_data(k),
                            &image,
                            split_seq(descr@, 10),
                            image.spec_width(),
                            image.spec_height(),
                            virtual_dimensions.spec_x() as int,
                            virtual_dimensions.spec_y() as int,
                            k,
                        )
                },
                Option::None => exists|li: int|
                    0 <= li < split_seq(descr@, 10).len() && line_bad(
                        #[trigger] split_seq(descr@, 10)[li],
                        image.spec_width(),
                        image.spec_height(),
                        virtual_dimensions.spec_x() as int,
                        virtual_dimensions.spec_y() as int,
                    ),
            }),
    {
        let ghost img_w = image.spec_width();
        let ghost img_h = image.spec_height();
        let vw: u32 = virtual_dimensions.x();
        let vh: u32 = virtual_dimensions.y();
        let ghost vw_i = vw as int;
        let ghost vh_i = vh as int;
        let img_w_e: u32 = image.width();
        let img_h_e: u32 = image.height();

        let lines = split_bytes(descr, 10);
        let ghost lseq = split_seq(descr@, 10);

        let mut background: Option<SpriteData> = None;
        let mut player: Option<SpriteData> = None;
        let mut player_bullet: Option<SpriteData> = None;
        let mut enemy_bullet: Option<SpriteData> = None;

        let mut li: usize = 0;
        proof {
            assert(lseq.take(0) =~= Seq::<Seq<u8>>::empty());
            assert(lines@.len() == lseq.len());
        }
        while li < lines.len()
            invariant
                0 <= li <= lseq.len(),
                forall|i: int|
                    0 <= i < li ==> !line_bad(#[trigger] lseq[i], img_w, img_h, vw_i, vh_i),
                slot_ok(
                    background,
                    &image,
                    lseq.take(li as int),
                    img_w,
                    img_h,
                    vw_i,
                    vh_i,
                    SpriteObject::Background,
                ),
                slot_ok(
                    player,
                    &image,
                    lseq.take(li as int),
                    img_w,
                    img_h,
                    vw_i,
                    vh_i,
                    SpriteObject::Player,
                ),
                slot_ok(
                    player_bullet,
                    &image,
                    lseq.take(li as int),
                    img_w,
                    img_h,
                    vw_i,
                    vh_i,
                    SpriteObject::PlayerBullet,
                ),
                slot_ok(
                    enemy_bullet,
                    &image,
                    lseq.take(li as int),
                    img_w,
                    img_h,
                    vw_i,
                    vh_i,
                    SpriteObject::EnemyBullet,
                ),
                (background matches Some(sd) ==> sd.wf()),
                (player matches Some(sd) ==> sd.wf()),
                (player_bullet matches Some(sd) ==> sd.wf()),
                (enemy_bullet matches Some(sd) ==> sd.wf()),
            decreases lseq.len() - li,
        {
            let ghost prefix = lseq.take(li as int);
            let ghost prefix1 = lseq.take(li as int + 1);
            proof {
                assert(prefix1.drop_last() =~= prefix);
                assert(prefix1.last() == lseq[li as int]);
                assert(vecs_view(lines@)[li as int] == lines@[li as int]@);
            }
            let line = strip_cr_bytes(&lines[li]);
            let ghost l2 = strip_cr(lseq[li as int]);

            if line.len() == 0 {
                proof {
                    assert(split_seq(l2, 32).len() == 1);
                    assert(parse_line(l2) is None);
                    assert(!line_bad(lseq[li as int], img_w, img_h, vw_i, vh_i));
                }
                li = li + 1;
                continue ;
            }

            let words = split_bytes(&line, 32);
            let ghost wseq = split_seq(l2, 32);
            proof {
                assert(words@.len() == wseq.len());
            }
            if words.len() != 6 {
                proof {
                    assert(parse_line(l2) is None);
                    assert(line_bad(lseq[li as int], img_w, img_h, vw_i, vh_i));
                }
                return None;
            }
            proof {
                assert forall|t: int| 0 <= t < 6 implies (#[trigger] words@[t])@ == wseq[t] by {
                    assert(vecs_view(words@)[t] == words@[t]@);
                }
            }
            let object = match parse_sprite_name(&words[0]) {
                Some(o) => o,
                None => {
                    proof {
                        assert(parse_line(l2) is None);
                    }
                    return None;
                },
            };
            let ox = match parse_u32(&words[1]) {
                Some(v) => v,
                None => {
                    proof {
                        assert(parse_line(l2) is None);
                    }
                    return None;
                },
            };
            let oy = match parse_u32(&words[2]) {
                Some(v) => v,
                None => {
                    proof {
                        assert(parse_line(l2) is None);
                    }
                    return None;
                },
            };
            let w = match parse_u32(&words[3]) {
                Some(v) => v,
                None => {
                    proof {
                        assert(parse_line(l2) is None);
                    }
                    return None;
                },
            };
            let h = match parse_u32(&words[4]) {
                Some(v) => v,
                None => {
                    proof {
                        assert(parse_line(l2) is None);
                    }
                    return None;
                },
            };
            let frames = match parse_u32(&words[5]) {
                Some(v) => v,
                None => {
                    proof {
                        assert(parse_line(l2) is None);
                    }
                    return None;
                },
            };
            let ghost ld = LineData {
                object,
                ox: ox as int,
                oy: oy as int,
                w: w as int,
                h: h as int,
                frames: frames as int,
            };
            proof {
                assert(parse_line(l2) == Some(ld));
            }

            let fits = (ox as u64) + (w as u64) <= (img_w_e as u64) && (oy as u64) + (h as u64)
                <= (img_h_e as u64) && w >= 2 && h >= 2 && w <= (crate::convex::PIXEL_LIMIT as u32)
                && h <= (crate::convex::PIXEL_LIMIT as u32) && (w as u64) <= 4 * (vw as u64) && (
            h as u64) <= 4 * (vh as u64);
            if !fits {
                proof {
                    assert(!line_valid(ld, img_w, img_h, vw_i, vh_i));
                    assert(line_bad(lseq[li as int], img_w, img_h, vw_i, vh_i));
                }
                return None;
            }

            let hull = crate::convex::calculate_convex(&image, Point::new(ox, oy), Point::new(w, h));
            let ghost mask = image.mask(ox as int, oy as int, w as int, h as int);
            let ghost model = crate::convex::convex_spec(mask, w as int, h as int);
            let ghost mview = model.map_values(
                |pr: ((int, int), (int, int))| conv_vertex(pr, w as int, h as int, vw_i, vh_i),
            );

            let half_w: i64 = (w / 2) as i64;
            let half_h: i64 = (h / 2) as i64;
            proof {
                vstd::arithmetic::div_mod::lemma_fundamental_div_mod(w as int, 2);
                vstd::arithmetic::div_mod::lemma_fundamental_div_mod(h as int, 2);
            }
            let mut pts: Vec<FxPoint> = Vec::new();
            let hn = hull.len();
            let mut k: usize = 0;
            while k < hn
                invariant
                    0 <= k <= hn,
                    hn == hull@.len(),
                    pts@.len() == k,
                    forall|t: int|
                        0 <= t < k ==> crate::collision::fxview(#[trigger] pts@[t]) == mview[t],
                    forall|t: int|
                        0 <= t < k ==> {
                            &&& -SPRITE_COORD_LIMIT <= (#[trigger] pts@[t]).spec_x()
                                <= SPRITE_COORD_LIMIT
                            &&& -SPRITE_COORD_LIMIT <= pts@[t].spec_y() <= SPRITE_COORD_LIMIT
                        },
                decreases hn - k,
            {
                let (p, d) = hull[k];
                proof {
                    assert(crate::convex::hull_view(hull@)[k as int] == model[k as int]);
                }
                let px: i64 = (p.x() as i64) + (d.x() as i64) - half_w;
                let py: i64 = half_h - (p.y() as i64) - (d.y() as i64);
                let wx = to_world(px, vw);
                let wy = to_world(py, vh);
                pts.push(Point::new(wx, wy));
                k = k + 1;
            }
            proof {
                assert(crate::collision::hull64(pts@) =~= mview);
            }

            let io_x: i64 = (ox as i64) * FX_ONE / (img_w_e as i64);
            let io_y: i64 = ((img_h_e - oy - h) as i64) * FX_ONE / (img_h_e as i64);
            let is_x: i64 = (w as i64) * FX_ONE / (img_w_e as i64);
            let is_y: i64 = (h as i64) * FX_ONE / (img_h_e as i64);
            let vs_x: i64 = (w as i64) * FX_ONE / (vw as i64);
            let vs_y: i64 = (h as i64) * FX_ONE / (vh as i64);
            let sd = SpriteData {
                image_offset: Point::new(io_x, io_y),
                image_size: Point::new(is_x, is_y),
                virtual_size: Point::new(vs_x, vs_y),
                frames_count: frames,
                convex: pts,
            };
            proof {
                assert(sd_matches_line(sd, &image, ld, img_w, img_h, vw_i, vh_i));
                assert(sd.wf());
            }
            match object {
                SpriteObject::Background => background = Some(sd),
                SpriteObject::Player => player = Some(sd),
                SpriteObject::PlayerBullet => player_bullet = Some(sd),
                SpriteObject::EnemyBullet => enemy_bullet = Some(sd),
            }
            proof {
                assert(last_decl(prefix1, ld.object) == Some(ld));
                assert forall|k2: SpriteObject| k2 != ld.object implies last_decl(prefix1, k2)
                    == last_decl(prefix, k2) by {}
                assert(!line_bad(lseq[li as int], img_w, img_h, vw_i, vh_i));
            }
            li = li + 1;
        }
        proof {
            assert(lseq.take(lseq.len() as int) =~= lseq);
        }
        let result = SpritesData { image, background, player, player_bullet, enemy_bullet };
        proof {
            assert forall|k: SpriteObject| #[trigger]
                slot_ok(
                    result.spec_sprite_data(k),
                    result.spec_image(),
                    lseq,
                    img_w,
                    img_h,
                    vw_i,
                    vh_i,
                    k,
                ) by {
                match k {
                    SpriteObject::Background => {},
                    SpriteObject::Player => {},
                    SpriteObject::PlayerBullet => {},
                    SpriteObject::EnemyBullet => {},
                }
            }
        }
        Some(result)
    }
}

} // verus!
