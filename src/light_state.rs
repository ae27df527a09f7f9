use vstd::prelude::*;

verus! {

/// Length of a persisted light state.
pub const LIGHT_STATE_LEN: usize = 8;

/// Duty resolution of the LED outputs, in bits.
pub const DUTY_BITS: u32 = 12;

/// Brightness of the two LED channels and a colour point.
#[derive(Copy, Clone, Debug, PartialEq, Eq, Structural)]
pub struct LightState {
    pub cold: u16,
    pub warm: u16,
    pub x: u16,
    pub y: u16,
}

/// The 16-bit integer whose little-endian bytes are `b0 b1`.
pub open spec fn u16_from_le(b0: u8, b1: u8) -> u16 {
    ((b0 as u16) | ((b1 as u16) << 8u16)) as u16
}

/// Little-endian bytes of a 16-bit integer.
pub open spec fn u16_le_bytes(x: u16) -> Seq<u8> {
    seq![(x & 0xff) as u8, (x >> 8u16) as u8]
}

impl LightState {
    /// The bytes that persist the state: `cold`, `warm`, `x`, `y`, each little-endian.
    pub open spec fn encoding(&self) -> Seq<u8> {
        u16_le_bytes(self.cold) + u16_le_bytes(self.warm) + u16_le_bytes(self.x) + u16_le_bytes(
            self.y,
        )
    }

    /// The state that the first-time setup uses.
    pub open spec fn default_spec() -> LightState {
        LightState { cold: 16000, warm: 16000, x: 197, y: 164 }
    }

    pub fn from_bytes(bytes: &[u8; LIGHT_STATE_LEN]) -> (r: LightState)
        ensures
            r.cold == u16_from_le(bytes@[0], bytes@[1]),
            r.warm == u16_from_le(bytes@[2], bytes@[3]),
            r.x == u16_from_le(bytes@[4], bytes@[5]),
            r.y == u16_from_le(bytes@[6], bytes@[7]),
            r.encoding() == bytes@,
    {
        let r = LightState {
            cold: u16_le(bytes[0], bytes[1]),
            warm: u16_le(bytes[2], bytes[3]),
            x: u16_le(bytes[4], bytes[5]),
            y: u16_le(bytes[6], bytes[7]),
        };
        proof {
            lemma_u16_bytes_of_read(bytes@[0], bytes@[1]);
            lemma_u16_bytes_of_read(bytes@[2], bytes@[3]);
            lemma_u16_bytes_of_read(bytes@[4], bytes@[5]);
            lemma_u16_bytes_of_read(bytes@[6], bytes@[7]);
            assert(r.encoding() =~= bytes@);
        }
        r
    }

    pub fn into_bytes(self) -> (r: [u8; LIGHT_STATE_LEN])
        ensures
            r@ == self.encoding(),
            LightState::decode_spec(r@) == self,
    {
        let r = [
            (self.cold & 0xff) as u8,
            (self.cold >> 8u16) as u8,
            (self.warm & 0xff) as u8,
            (self.warm >> 8u16) as u8,
            (self.x & 0xff) as u8,
            (self.x >> 8u16) as u8,
            (self.y & 0xff) as u8,
            (self.y >> 8u16) as u8,
        ];
        proof {
            assert(r@ =~= self.encoding());
            lemma_u16_round_trip(self.cold);
            lemma_u16_round_trip(self.warm);
            lemma_u16_round_trip(self.x);
            lemma_u16_round_trip(self.y);
        }
        r
    }

    /// The state that the bytes `b` persist.
    pub open spec fn decode_spec(b: Seq<u8>) -> LightState {
        LightState {
            cold: u16_from_le(b[0], b[1]),
            warm: u16_from_le(b[2], b[3]),
            x: u16_from_le(b[4], b[5]),
            y: u16_from_le(b[6], b[7]),
        }
    }

    /// Reads the persisted state: erased storage (every byte all ones) means that nothing
    /// was stored yet, and gives the default state.
    pub fn from_storage(bytes: &[u8; LIGHT_STATE_LEN]) -> (r: LightState)
        ensures
            (forall|i: int| 0 <= i < LIGHT_STATE_LEN ==> bytes@[i] == 0xff) ==> r
                == LightState::default_spec(),
            !(forall|i: int| 0 <= i < LIGHT_STATE_LEN ==> bytes@[i] == 0xff) ==> r
                == LightState::decode_spec(bytes@),
    {
        let mut i: usize = 0;
        while i < LIGHT_STATE_LEN
            invariant
                i <= LIGHT_STATE_LEN,
                forall|j: int| 0 <= j < i ==> bytes@[j] == 0xff,
            decreases LIGHT_STATE_LEN - i,
        {
            if bytes[i] != 0xff {
                return LightState::from_bytes(bytes);
            }
            i = i + 1;
        }
        LightState::default()
    }

    /// Reads a state received as a message: exactly `LIGHT_STATE_LEN` bytes, else nothing.
    pub fn from_message(bytes: &[u8]) -> (r: Option<LightState>)
        ensures
            r is Some <==> bytes@.len() == LIGHT_STATE_LEN,
            r is Some ==> r->Some_0 == LightState::decode_spec(bytes@),
    {
        if bytes.len() != LIGHT_STATE_LEN {
            return None;
        }
        let a: [u8; LIGHT_STATE_LEN] = [
            bytes[0],
            bytes[1],
            bytes[2],
            bytes[3],
            bytes[4],
            bytes[5],
            bytes[6],
            bytes[7],
        ];
        Some(LightState::from_bytes(&a))
    }

    /// Duty of the warm channel at the output resolution.
    pub fn warm_duty(&self) -> (r: u32)
        ensures
            r == duty_spec(self.warm),
    {
        duty_from_level(self.warm)
    }

    /// Duty of the cold channel at the output resolution.
    pub fn cold_duty(&self) -> (r: u32)
        ensures
            r == duty_spec(self.cold),
    {
        duty_from_level(self.cold)
    }
}

impl Default for LightState {
    fn default() -> (r: LightState)
        ensures
            r == LightState::default_spec(),
    {
        LightState { cold: 16000, warm: 16000, x: 197, y: 164 }
    }
}

/// A 16-bit level scaled to a duty of `DUTY_BITS` bits.
pub open spec fn duty_spec(level: u16) -> u32 {
    (level as u32) / 16
}

/// Scales a 16-bit level to a duty of `DUTY_BITS` bits: `level << DUTY_BITS >> 16`.
pub fn duty_from_level(level: u16) -> (r: u32)
    ensures
        r == duty_spec(level),
        r < 4096,
{
    let r = ((level as u32) << DUTY_BITS) >> 16u32;
    assert(((level as u32) << 12u32) >> 16u32 == (level as u32) / 16) by (bit_vector);
    r
}

/// Duty at step `step` of a linear fade-in of `steps` steps towards `target`.
pub fn fade_duty(target: u32, step: u32, steps: u32) -> (r: u32)
    requires
        0 < steps,
        step <= steps,
    ensures
        r == (target as int * step as int) / (steps as int),
        r <= target,
{
    assert(target as int * step as int <= u32::MAX as int * u32::MAX as int) by (nonlinear_arith);
    let p: u64 = target as u64 * step as u64;
    let r = p / steps as u64;
    assert(r <= target) by (nonlinear_arith)
        requires
            p as int == target as int * step as int,
            r as int == p as int / steps as int,
            step <= steps,
            0 < steps,
    ;
    r as u32
}

fn u16_le(b0: u8, b1: u8) -> (r: u16)
    ensures
        r == u16_from_le(b0, b1),
{
    (b0 as u16) | ((b1 as u16) << 8u16)
}

proof fn lemma_u16_bytes_of_read(b0: u8, b1: u8)
    ensures
        u16_le_bytes(u16_from_le(b0, b1)) == seq![b0, b1],
{
    let x = u16_from_le(b0, b1);
    assert((x & 0xff) as u8 == b0 && (x >> 8u16) as u8 == b1) by (bit_vector)
        requires
            x == ((b0 as u16) | ((b1 as u16) << 8u16)) as u16,
    ;
    assert(u16_le_bytes(x) =~= seq![b0, b1]);
}

proof fn lemma_u16_round_trip(x: u16)
    ensures
        u16_from_le((x & 0xff) as u8, (x >> 8u16) as u8) == x,
{
    assert(((((x & 0xff) as u8) as u16) | ((((x >> 8u16) as u8) as u16) << 8u16)) as u16 == x)
        by (bit_vector);
}

} // verus!
