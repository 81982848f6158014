//! The welcome screen's menu: a title stage (ENTER goes on) followed by the
//! difficulty selector (1 / 2 / 3 choose, ENTER starts), all by keyboard.
use vstd::prelude::*;
use crate::difficulty::Difficulty;

verus! {

/// The keys the menus react to; every other key is `Other`.
#[derive(Clone, Copy, Debug, PartialEq, Eq, Structural)]
pub enum Key {
    Num1,
    Num2,
    Num3,
    Return,
    Return2,
    KpEnter,
    R,
    Other,
}

/// The keys that confirm: both return keys and the keypad enter.
pub open spec fn spec_is_confirm(key: Key) -> bool {
    key == Key::Return || key == Key::Return2 || key == Key::KpEnter
}

/// Whether `key` confirms (either return key, or keypad enter).
pub fn is_confirm(key: &Key) -> (b: bool)
    ensures
        b == spec_is_confirm(*key),
        b == (*key == Key::Return || *key == Key::Return2 || *key == Key::KpEnter),
{
    match key {
        Key::Return | Key::Return2 | Key::KpEnter => true,
        _ => false,
    }
}

/// Stage of the welcome screen.
#[derive(Clone, Copy, Debug, PartialEq, Eq, Structural)]
pub enum Stage {
    Title,
    Difficulty,
}

/// The difficulty selector reading `keys` in order, starting from `d`: 1, 2
/// and 3 pick easy, medium and hard, the first confirming key ends the
/// selection (and the keys after it are ignored), other keys do nothing.
/// Gives the selected difficulty and whether a confirming key came.
pub open spec fn select_difficulty(d: Difficulty, keys: Seq<Key>) -> (Difficulty, bool)
    decreases keys.len(),
{
    if keys.len() == 0 {
        (d, false)
    } else if keys[0] == Key::Num1 {
        select_difficulty(Difficulty::Easy, keys.drop_first())
    } else if keys[0] == Key::Num2 {
        select_difficulty(Difficulty::Medium, keys.drop_first())
    } else if keys[0] == Key::Num3 {
        select_difficulty(Difficulty::Hard, keys.drop_first())
    } else if spec_is_confirm(keys[0]) {
        (d, true)
    } else {
        select_difficulty(d, keys.drop_first())
    }
}

/// Menu state of the welcome screen: the chosen difficulty (medium until the
/// player picks another one) and the stage.
pub struct WelcomeState {
    pub difficulty: Difficulty,
    pub stage: Stage,
}

impl WelcomeState {
    /// The title stage, with medium difficulty selected.
    pub fn new() -> (w: Self)
        ensures
            w.difficulty == Difficulty::Medium,
            w.stage == Stage::Title,
    {
        WelcomeState { difficulty: Difficulty::Medium, stage: Stage::Title }
    }

    /// Handles the keys pressed this frame, in order. On the title stage a
    /// confirming key only moves on to the difficulty selector; on the
    /// selector, number keys choose and a confirming key returns `true`: the
    /// game should start with `self.difficulty`.
    pub fn handle_keydowns(&mut self, keydowns: &[Key]) -> (start: bool)
        ensures
            old(self).stage == Stage::Title ==> {
                &&& !start
                &&& final(self).difficulty == old(self).difficulty
                &&& final(self).stage == (if exists|i: int|
                    0 <= i < keydowns@.len() && spec_is_confirm(#[trigger] keydowns@[i]) {
                    Stage::Difficulty
                } else {
                    Stage::Title
                })
            },
            old(self).stage == Stage::Difficulty ==> {
                &&& (final(self).difficulty, start) == select_difficulty(old(self).difficulty, keydowns@)
                &&& final(self).stage == Stage::Difficulty
            },
    {
        match self.stage {
            Stage::Title => {
                let mut i: usize = 0;
                let mut found = false;
                while i < keydowns.len()
                    invariant
                        i <= keydowns@.len(),
                        found == exists|j: int| 0 <= j < i && spec_is_confirm(#[trigger] keydowns@[j]),
                    decreases keydowns.len() - i,
                {
                    if is_confirm(&keydowns[i]) {
                        found = true;
                    }
                    i = i + 1;
                }
                if found {
                    self.stage = Stage::Difficulty;
                }
                false
            },
            Stage::Difficulty => {
                let ghost d0 = self.difficulty;
                assert(keydowns@.skip(0) =~= keydowns@);
                let mut i: usize = 0;
                while i < keydowns.len()
                    invariant
                        i <= keydowns@.len(),
                        self.stage == Stage::Difficulty,
                        old(self).stage == Stage::Difficulty,
                        d0 == old(self).difficulty,
                        select_difficulty(d0, keydowns@) == select_difficulty(
                            self.difficulty,
                            keydowns@.skip(i as int),
                        ),
                    decreases keydowns.len() - i,
                {
                    let key = keydowns[i];
                    assert(keydowns@.skip(i as int)[0] == key);
                    assert(keydowns@.skip(i as int).drop_first() =~= keydowns@.skip(i + 1));
                    match key {
                        Key::Num1 => self.difficulty = Difficulty::Easy,
                        Key::Num2 => self.difficulty = Difficulty::Medium,
                        Key::Num3 => self.difficulty = Difficulty::Hard,
                        _ => {
                            if is_confirm(&key) {
                                return true;
                            }
                        },
                    }
                    i = i + 1;
                }
                assert(keydowns@.skip(i as int).len() == 0);
                false
            },
        }
    }
}

/// The confirming keys are exactly the two return keys and the keypad
/// enter: no number key, nor R, nor any other key confirms.
pub proof fn lemma_confirm_keys(k: Key)
    ensures
        spec_is_confirm(Key::Return),
        spec_is_confirm(Key::Return2),
        spec_is_confirm(Key::KpEnter),
        !spec_is_confirm(Key::Num1),
        !spec_is_confirm(Key::Num2),
        !spec_is_confirm(Key::Num3),
        !spec_is_confirm(Key::R),
        !spec_is_confirm(Key::Other),
        spec_is_confirm(k) ==> k == Key::Return || k == Key::Return2 || k == Key::KpEnter,
{
}

/// Number keys alone never start the game: on the difficulty selector they
/// only pick a difficulty, the last one pressed.
pub proof fn lemma_number_keys_never_start(d: Difficulty, keys: Seq<Key>)
    requires
        forall|i: int| 0 <= i < keys.len() ==> (#[trigger] keys[i] == Key::Num1 || keys[i] == Key::Num2
            || keys[i] == Key::Num3),
    ensures
        !select_difficulty(d, keys).1,
        keys.len() > 0 ==> select_difficulty(d, keys).0 == (if keys.last() == Key::Num1 {
            Difficulty::Easy
        } else if keys.last() == Key::Num2 {
            Difficulty::Medium
        } else {
            Difficulty::Hard
        }),
    decreases keys.len(),
{
    if keys.len() > 0 {
        let rest = keys.drop_first();
        assert forall|i: int| 0 <= i < rest.len() implies (#[trigger] rest[i] == Key::Num1 || rest[i]
            == Key::Num2 || rest[i] == Key::Num3) by {
            assert(rest[i] == keys[i + 1]);
        }
        assert(keys[0] == Key::Num1 || keys[0] == Key::Num2 || keys[0] == Key::Num3);
        let d2 = if keys[0] == Key::Num1 {
            Difficulty::Easy
        } else if keys[0] == Key::Num2 {
            Difficulty::Medium
        } else {
            Difficulty::Hard
        };
        lemma_number_keys_never_start(d2, rest);
        if rest.len() > 0 {
            assert(rest.last() == keys.last());
        } else {
            assert(keys.len() == 1);
        }
    }
}

/// On the title stage number keys never confirm, so a frame of number keys
/// alone leaves the menu on the title.
pub proof fn lemma_title_ignores_number_keys(keys: Seq<Key>)
    requires
        forall|i: int| 0 <= i < keys.len() ==> (#[trigger] keys[i] == Key::Num1 || keys[i] == Key::Num2
            || keys[i] == Key::Num3),
    ensures
        !exists|i: int| 0 <= i < keys.len() && spec_is_confirm(#[trigger] keys[i]),
{
}

} // verus!
