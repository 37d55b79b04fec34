use cbonsai::broadleaf::{BLOSSOM_CUT, OAK_LEAF_CUT};
use cbonsai::pine::{HALF_CUT, NEEDLE_CUT};
use cbonsai::pot::{DECOR_CUT, GLAZE_CUT};
use cbonsai::willow::WILLOW_LEAF_CUT;
use rand::{Rng, RngCore};

/// A generator that always yields the same word.
struct Fixed(u32);

impl RngCore for Fixed {
    fn next_u32(&mut self) -> u32 {
        self.0
    }
    fn next_u64(&mut self) -> u64 {
        self.0 as u64
    }
    fn fill_bytes(&mut self, dest: &mut [u8]) {
        for b in dest.iter_mut() {
            *b = 0;
        }
    }
    fn try_fill_bytes(&mut self, dest: &mut [u8]) -> Result<(), rand::Error> {
        self.fill_bytes(dest);
        Ok(())
    }
}

fn check(cut: u32, p: f32) {
    let words = [
        0u32,
        cut << 8,
        (cut << 8) | 0xff,
        (cut + 1) << 8,
        ((cut + 1) << 8) | 0x80,
        cut.wrapping_sub(1) << 8,
        u32::MAX,
    ];
    for w in words {
        let by_float = Fixed(w).gen::<f32>() > p;
        let by_cut = (w >> 8) > cut;
        assert_eq!(by_float, by_cut, "word {:#x}, cut {}, p {}", w, cut, p);
    }
}

#[test]
fn cuts_match_float_draws_on_boundary_words() {
    check(GLAZE_CUT, 0.7);
    check(DECOR_CUT, 0.6);
    check(NEEDLE_CUT, 0.15);
    check(HALF_CUT, 0.5);
    check(WILLOW_LEAF_CUT, 0.25);
    check(OAK_LEAF_CUT, 0.35);
    check(BLOSSOM_CUT, 0.3);
}
