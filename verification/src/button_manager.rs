//! The regions of the bar that answer to a click.
use vstd::prelude::*;

verus! {

/// A stretch of the bar, `width` pixels from `x` on, and what a click on it
/// means. The stretch is half-open: `x + width` is outside.
pub struct Button<T> {
    pub x: i128,
    pub width: u32,
    pub elem: T,
}

/// The buttons of one area of the bar, in the order in which they were
/// pushed. They are rebuilt whenever the area is laid out anew.
pub struct ButtonManager<T> {
    pub buttons: Vec<Button<T>>,
}

impl<T> Button<T> {
    /// Whether the button covers the place `x`.
    pub open spec fn covers(self, x: int) -> bool {
        self.x <= x < self.x + self.width
    }
}

/// `i` is the first of `buttons` that covers `x`.
pub open spec fn is_first_hit<T>(buttons: Seq<Button<T>>, x: int, i: int) -> bool {
    &&& 0 <= i < buttons.len()
    &&& buttons[i].covers(x)
    &&& forall|j: int| 0 <= j < i ==> !(#[trigger] buttons[j]).covers(x)
}

/// The buttons stand from left to right without overlap, and none is empty.
pub open spec fn in_order<T>(buttons: Seq<Button<T>>) -> bool {
    &&& forall|i: int| 0 <= i < buttons.len() ==> (#[trigger] buttons[i]).width > 0
    &&& forall|i: int, j: int|
        0 <= i < j < buttons.len() ==> (#[trigger] buttons[i]).x + buttons[i].width <= (
        #[trigger] buttons[j]).x
}

impl<T> ButtonManager<T> {
    /// A manager without buttons.
    pub fn new() -> (r: Self)
        ensures
            r.buttons@.len() == 0,
    {
        ButtonManager { buttons: Vec::new() }
    }

    /// Forgets all buttons.
    pub fn clear(&mut self)
        ensures
            final(self).buttons@.len() == 0,
    {
        self.buttons.clear();
    }

    /// Adds a button behind those that are there.
    pub fn push(&mut self, x: i128, width: u32, elem: T)
        ensures
            final(self).buttons@ == old(self).buttons@.push(Button { x, width, elem }),
    {
        self.buttons.push(Button { x, width, elem });
    }

    /// Returns what the first button that covers `x` stands for, or `None`
    /// where no button covers `x`.
    pub fn click(&self, x: i128) -> (r: Option<&T>)
        ensures
            match r {
                Some(elem) => exists|i: int|
                    is_first_hit(self.buttons@, x as int, i) && *elem == self.buttons@[i].elem,
                None => forall|i: int|
                    0 <= i < self.buttons@.len() ==> !(#[trigger] self.buttons@[i]).covers(x as int),
            },
    {
        let mut i: usize = 0;
        while i < self.buttons.len()
            invariant
                i <= self.buttons@.len(),
                forall|j: int| 0 <= j < i ==> !(#[trigger] self.buttons@[j]).covers(x as int),
            decreases self.buttons@.len() - i,
        {
            let b = &self.buttons[i];
            let hit = b.x <= x && match x.checked_sub(b.x) {
                Some(d) => d < b.width as i128,
                None => false,
            };
            if hit {
                assert(is_first_hit(self.buttons@, x as int, i as int));
                return Some(&b.elem);
            }
            i += 1;
        }
        None
    }
}

/// In a row of buttons that stand in order, at most one covers a place: the
/// first hit is the only one.
pub proof fn lemma_one_hit<T>(buttons: Seq<Button<T>>, x: int, i: int, j: int)
    requires
        in_order(buttons),
        0 <= i < buttons.len(),
        0 <= j < buttons.len(),
        buttons[i].covers(x),
        buttons[j].covers(x),
    ensures
        i == j,
{
    if i < j {
        assert(buttons[i].x + buttons[i].width <= buttons[j].x);
    } else if j < i {
        assert(buttons[j].x + buttons[j].width <= buttons[i].x);
    }
}

} // verus!
