use vstd::prelude::*;

verus! {

/// How many pixels wide the display is.
pub const SCREEN_WIDTH: usize = 64;

/// How many pixels high the display is.
pub const SCREEN_HEIGHT: usize = 32;

/// The position in the pixel sequence of the pixel at column `x` and row `y`.
pub open spec fn pixel_index(x: int, y: int) -> int {
    x + y * SCREEN_WIDTH
}

/// A display of the given size with every pixel off.
pub open spec fn blank_pixels() -> Seq<bool> {
    Seq::new((SCREEN_WIDTH * SCREEN_HEIGHT) as nat, |p: int| false)
}

/// Represents the pixels of the 64x32 CHIP-8 display.
///
/// A pixel is drawn when equal to true. Its view is the sequence of pixels,
/// row after row.
pub struct Screen {
    screen: Vec<bool>,
    /// How many pixels wide the display is (64 for CHIP-8)
    pub width: usize,
    /// How many pixels high the display is (32 for CHIP-8)
    pub height: usize,
}

impl View for Screen {
    type V = Seq<bool>;

    closed spec fn view(&self) -> Seq<bool> {
        self.screen@
    }
}

impl Screen {
    /// The dimensions are those of the CHIP-8 display and every pixel is held.
    pub closed spec fn wf(&self) -> bool {
        &&& self.width == SCREEN_WIDTH
        &&& self.height == SCREEN_HEIGHT
        &&& self.screen@.len() == SCREEN_WIDTH * SCREEN_HEIGHT
    }

    /// A well-formed screen holds one pixel for each position.
    pub proof fn lemma_wf_len(&self)
        requires
            self.wf(),
        ensures
            self@.len() == SCREEN_WIDTH * SCREEN_HEIGHT,
    {
    }

    /// Clear all pixels in the screen.
    pub fn clear_screen(&mut self)
        requires
            old(self).wf(),
        ensures
            final(self).wf(),
            final(self)@ == blank_pixels(),
    {
        let n = self.screen.len();
        let mut k: usize = 0;
        while k < n
            invariant
                self.wf(),
                n == self.screen@.len(),
                0 <= k <= n,
                forall|p: int| 0 <= p < k ==> !self.screen@[p],
            decreases n - k,
        {
            self.screen.set(k, false);
            k = k + 1;
        }
        assert(self.screen@ =~= blank_pixels());
    }

    /// Get the state of the pixel at the provided coordinates.
    pub fn get_pixel(&self, x: usize, y: usize) -> (r: bool)
        requires
            self.wf(),
            x < SCREEN_WIDTH,
            y < SCREEN_HEIGHT,
        ensures
            r == self@[pixel_index(x as int, y as int)],
    {
        self.screen[x + y * self.width]
    }

    /// Flip the state of the pixel at the provided coordinates.
    pub fn toggle_pixel(&mut self, x: usize, y: usize)
        requires
            old(self).wf(),
            x < SCREEN_WIDTH,
            y < SCREEN_HEIGHT,
        ensures
            final(self).wf(),
            final(self)@ == old(self)@.update(
                pixel_index(x as int, y as int),
                !old(self)@[pixel_index(x as int, y as int)],
            ),
    {
        let idx = x + y * self.width;
        let pixel = self.screen[idx];
        self.screen.set(idx, !pixel);
    }

    /// Set the pixel at the provided coordinates.
    pub fn set_pixel(&mut self, x: usize, y: usize)
        requires
            old(self).wf(),
            x < SCREEN_WIDTH,
            y < SCREEN_HEIGHT,
        ensures
            final(self).wf(),
            final(self)@ == old(self)@.update(pixel_index(x as int, y as int), true),
    {
        let idx = x + y * self.width;
        self.screen.set(idx, true);
    }

    /// Clear the pixel at the provided coordinates.
    pub fn clear_pixel(&mut self, x: usize, y: usize)
        requires
            old(self).wf(),
            x < SCREEN_WIDTH,
            y < SCREEN_HEIGHT,
        ensures
            final(self).wf(),
            final(self)@ == old(self)@.update(pixel_index(x as int, y as int), false),
    {
        let idx = x + y * self.width;
        self.screen.set(idx, false);
    }
}

impl Default for Screen {
    fn default() -> (r: Self)
        ensures
            r.wf(),
            r@ == blank_pixels(),
    {
        let screen = vec![false; SCREEN_WIDTH * SCREEN_HEIGHT];
        let r = Screen { screen, width: SCREEN_WIDTH, height: SCREEN_HEIGHT };
        assert(r@ =~= blank_pixels());
        r
    }
}

} // verus!
