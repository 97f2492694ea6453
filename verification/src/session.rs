//! A connected session: its camera, the input of the current tick, and
//! whether its transport is still open.

use vstd::prelude::*;
use std::collections::HashSet;
use crate::message::{MessageC2S, MouseButton, PlayerInputMessage};
use crate::pos::{Position, Vec2};
use crate::world::ChunkRef;

verus! {

/// Half the edge of the square of chunks that a session watches, less a
/// half: the window reaches this many chunks from the camera's chunk in each
/// direction.
pub const LOAD_RADIUS: i16 = 4;

/// Number of chunks in the window of a camera.
pub const WINDOW_AREA: usize = 81;

/// What a session's camera is bound to.
#[derive(Copy, Clone, Debug, PartialEq, Eq, Structural)]
pub enum ClientCameraType {
    Off,
    Position(Position),
    Entity(u128),
}

/// The input of a session during the current tick.
pub struct PlayerInput {
    pub keys_down: HashSet<u16>,
    pub keys_pressed: HashSet<u16>,
    pub keys_released: HashSet<u16>,
    pub buttons_down: HashSet<u8>,
    pub buttons_pressed: HashSet<u8>,
    pub buttons_released: HashSet<u8>,
    pub mouse_position: Vec2,
}

/// The numbers of the buttons in `buttons`.
pub open spec fn button_codes(buttons: Seq<MouseButton>) -> Set<u8> {
    Set::new(|code: u8| exists|i: int| 0 <= i < buttons.len() && buttons[i].spec_code() == code)
}

/// The keys that one of the first `n` frames reports as pressed.
pub open spec fn pressed_in(frames: Seq<MessageC2S>, n: int) -> Set<u16> {
    Set::new(
        |key: u16|
            exists|i: int|
                0 <= i < n && i < frames.len() && (#[trigger] frames[i])->PlayerInput_0.keys_pressed@.contains(
                    key,
                ),
    )
}

/// The keys that one of the first `n` frames reports as released.
pub open spec fn released_in(frames: Seq<MessageC2S>, n: int) -> Set<u16> {
    Set::new(
        |key: u16|
            exists|i: int|
                0 <= i < n && i < frames.len() && (#[trigger] frames[i])->PlayerInput_0.keys_released@.contains(
                    key,
                ),
    )
}

/// The buttons that one of the first `n` frames reports as pressed.
pub open spec fn buttons_pressed_in(frames: Seq<MessageC2S>, n: int) -> Set<u8> {
    Set::new(
        |code: u8|
            exists|i: int|
                0 <= i < n && i < frames.len() && button_codes(
                    (#[trigger] frames[i])->PlayerInput_0.buttons_pressed@,
                ).contains(code),
    )
}

/// The buttons that one of the first `n` frames reports as released.
pub open spec fn buttons_released_in(frames: Seq<MessageC2S>, n: int) -> Set<u8> {
    Set::new(
        |code: u8|
            exists|i: int|
                0 <= i < n && i < frames.len() && button_codes(
                    (#[trigger] frames[i])->PlayerInput_0.buttons_released@,
                ).contains(code),
    )
}

fn insert_keys(set: &mut HashSet<u16>, keys: &Vec<u16>)
    ensures
        final(set)@ == old(set)@.union(keys@.to_set()),
{
    let mut i: usize = 0;
    while i < keys.len()
        invariant
            i <= keys.len(),
            set@ == old(set)@.union(keys@.take(i as int).to_set()),
        decreases keys.len() - i,
    {
        set.insert(keys[i]);
        proof {
            let before = keys@.take(i as int);
            let after = keys@.take(i as int + 1);
            assert(after =~= before.push(keys@[i as int]));
            assert forall|k: u16| after.to_set().contains(k) <==> before.to_set().contains(k) || k
                == keys@[i as int] by {
                if before.contains(k) {
                    let j = choose|j: int| 0 <= j < before.len() && before[j] == k;
                    assert(after[j] == k);
                }
                if k == keys@[i as int] {
                    assert(after[i as int] == k);
                }
            }
            assert(set@ =~= old(set)@.union(after.to_set()));
        }
        i += 1;
    }
    assert(keys@.take(keys@.len() as int) =~= keys@);
}

fn insert_buttons(set: &mut HashSet<u8>, buttons: &Vec<MouseButton>)
    ensures
        final(set)@ == old(set)@.union(button_codes(buttons@)),
{
    let mut i: usize = 0;
    while i < buttons.len()
        invariant
            i <= buttons.len(),
            set@ == old(set)@.union(button_codes(buttons@.take(i as int))),
        decreases buttons.len() - i,
    {
        set.insert(buttons[i].code());
        proof {
            let before = buttons@.take(i as int);
            let after = buttons@.take(i as int + 1);
            assert(after =~= before.push(buttons@[i as int]));
            assert forall|c: u8| button_codes(after).contains(c) <==> button_codes(before).contains(c)
                || c == buttons@[i as int].spec_code() by {
                if button_codes(before).contains(c) {
                    let j = choose|j: int| 0 <= j < before.len() && before[j].spec_code() == c;
                    assert(after[j].spec_code() == c);
                }
                if c == buttons@[i as int].spec_code() {
                    assert(after[i as int].spec_code() == c);
                }
            }
            assert(set@ =~= old(set)@.union(button_codes(after)));
        }
        i += 1;
    }
    assert(buttons@.take(buttons@.len() as int) =~= buttons@);
}

impl PlayerInput {
    /// Nothing is held down, and nothing was pressed or released.
    pub open spec fn is_blank(&self) -> bool {
        &&& self.keys_down@ == Set::<u16>::empty()
        &&& self.keys_pressed@ == Set::<u16>::empty()
        &&& self.keys_released@ == Set::<u16>::empty()
        &&& self.buttons_down@ == Set::<u8>::empty()
        &&& self.buttons_pressed@ == Set::<u8>::empty()
        &&& self.buttons_released@ == Set::<u8>::empty()
        &&& self.mouse_position == (Vec2 { x: 0, y: 0 })
    }

    /// What `frames`, in the order of their arrival, leave as the input of a
    /// tick: what is held down and where the pointer is come from the last
    /// frame, what was pressed or released from all of them.
    pub open spec fn reflects(&self, frames: Seq<MessageC2S>) -> bool {
        let n = frames.len() as int;
        &&& self.keys_pressed@ == pressed_in(frames, n)
        &&& self.keys_released@ == released_in(frames, n)
        &&& self.buttons_pressed@ == buttons_pressed_in(frames, n)
        &&& self.buttons_released@ == buttons_released_in(frames, n)
        &&& n == 0 ==> self.keys_down@ == Set::<u16>::empty() && self.buttons_down@ == Set::<
            u8,
        >::empty() && self.mouse_position == (Vec2 { x: 0, y: 0 })
        &&& n > 0 ==> self.keys_down@ == frames[n - 1]->PlayerInput_0.keys_down@.to_set()
            && self.buttons_down@ == button_codes(frames[n - 1]->PlayerInput_0.buttons_down@)
            && self.mouse_position == frames[n - 1]->PlayerInput_0.mouse_position
    }

    /// The input of a tick in which no frame arrived.
    pub fn new() -> (input: PlayerInput)
        ensures
            input.is_blank(),
    {
        PlayerInput {
            keys_down: HashSet::new(),
            keys_pressed: HashSet::new(),
            keys_released: HashSet::new(),
            buttons_down: HashSet::new(),
            buttons_pressed: HashSet::new(),
            buttons_released: HashSet::new(),
            mouse_position: Vec2 { x: 0, y: 0 },
        }
    }

    /// Takes in one more frame.
    pub fn absorb(&mut self, frame: &PlayerInputMessage)
        ensures
            final(self).keys_down@ == frame.keys_down@.to_set(),
            final(self).keys_pressed@ == old(self).keys_pressed@.union(frame.keys_pressed@.to_set()),
            final(self).keys_released@ == old(self).keys_released@.union(
                frame.keys_released@.to_set(),
            ),
            final(self).buttons_down@ == button_codes(frame.buttons_down@),
            final(self).buttons_pressed@ == old(self).buttons_pressed@.union(
                button_codes(frame.buttons_pressed@),
            ),
            final(self).buttons_released@ == old(self).buttons_released@.union(
                button_codes(frame.buttons_released@),
            ),
            final(self).mouse_position == frame.mouse_position,
    {
        let mut keys_down: HashSet<u16> = HashSet::new();
        insert_keys(&mut keys_down, &frame.keys_down);
        assert(keys_down@ =~= frame.keys_down@.to_set());
        self.keys_down = keys_down;
        insert_keys(&mut self.keys_pressed, &frame.keys_pressed);
        insert_keys(&mut self.keys_released, &frame.keys_released);
        let mut buttons_down: HashSet<u8> = HashSet::new();
        insert_buttons(&mut buttons_down, &frame.buttons_down);
        assert(buttons_down@ =~= button_codes(frame.buttons_down@));
        self.buttons_down = buttons_down;
        insert_buttons(&mut self.buttons_pressed, &frame.buttons_pressed);
        insert_buttons(&mut self.buttons_released, &frame.buttons_released);
        self.mouse_position = frame.mouse_position;
    }
}

/// A connected session.
pub struct Client {
    pub id: u128,
    pub camera: ClientCameraType,
    /// The chunk at the centre of the window that the session watches.
    pub loaded: Option<ChunkRef>,
    pub closed: bool,
    pub player_input: PlayerInput,
}

impl Client {
    /// The window of a session whose camera is off is empty, and the window
    /// of a session whose camera is bound to a point lies around that point.
    pub open spec fn window_settled(&self) -> bool {
        match self.camera {
            ClientCameraType::Off => self.loaded is None,
            ClientCameraType::Position(position) => self.loaded == Some(
                ChunkRef { world: position.world, position: position.spec_chunk() },
            ),
            ClientCameraType::Entity(_) => true,
        }
    }

    /// The session `id`, without a camera and without input.
    pub fn new(id: u128) -> (client: Client)
        ensures
            client.id == id,
            client.camera == ClientCameraType::Off,
            client.loaded is None,
            !client.closed,
            client.player_input.is_blank(),
    {
        Client {
            id,
            camera: ClientCameraType::Off,
            loaded: None,
            closed: false,
            player_input: PlayerInput::new(),
        }
    }

    /// Forgets the input of the last tick and takes in `frames`, the frames
    /// that arrived since, in their order. A session whose transport is
    /// `disconnected` is closed from now on.
    pub fn read_input(&mut self, frames: &Vec<MessageC2S>, disconnected: bool)
        ensures
            final(self).player_input.reflects(frames@),
            final(self).closed == (old(self).closed || disconnected),
            final(self).id == old(self).id,
            final(self).camera == old(self).camera,
            final(self).loaded == old(self).loaded,
    {
        self.player_input = PlayerInput::new();
        proof {
            let none = frames@.take(0);
            assert(pressed_in(none, 0) =~= Set::<u16>::empty());
            assert(released_in(none, 0) =~= Set::<u16>::empty());
            assert(buttons_pressed_in(none, 0) =~= Set::<u8>::empty());
            assert(buttons_released_in(none, 0) =~= Set::<u8>::empty());
        }
        let mut i: usize = 0;
        while i < frames.len()
            invariant
                i <= frames.len(),
                self.player_input.reflects(frames@.take(i as int)),
                self.closed == old(self).closed,
                self.id == old(self).id,
                self.camera == old(self).camera,
                self.loaded == old(self).loaded,
            decreases frames.len() - i,
        {
            let ghost before = self.player_input;
            match &frames[i] {
                MessageC2S::PlayerInput(frame) => {
                    self.player_input.absorb(frame);
                },
            }
            proof {
                lemma_one_more_frame(frames@, i as int, before, self.player_input);
            }
            i += 1;
        }
        assert(frames@.take(frames@.len() as int) =~= frames@);
        if disconnected {
            self.closed = true;
        }
    }

    /// Whether the key is held down.
    pub fn is_key_down(&self, key: u16) -> (r: bool)
        ensures
            r == self.player_input.keys_down@.contains(key),
    {
        self.player_input.keys_down.contains(&key)
    }

    /// Whether the key went down during this tick.
    pub fn is_key_pressed(&self, key: u16) -> (r: bool)
        ensures
            r == self.player_input.keys_pressed@.contains(key),
    {
        self.player_input.keys_pressed.contains(&key)
    }

    /// Whether the key went up during this tick.
    pub fn is_key_released(&self, key: u16) -> (r: bool)
        ensures
            r == self.player_input.keys_released@.contains(key),
    {
        self.player_input.keys_released.contains(&key)
    }

    /// Whether the button with the number `button` is held down.
    pub fn is_button_down(&self, button: u8) -> (r: bool)
        ensures
            r == self.player_input.buttons_down@.contains(button),
    {
        self.player_input.buttons_down.contains(&button)
    }

    /// Whether the button with the number `button` went down during this
    /// tick.
    pub fn is_button_pressed(&self, button: u8) -> (r: bool)
        ensures
            r == self.player_input.buttons_pressed@.contains(button),
    {
        self.player_input.buttons_pressed.contains(&button)
    }

    /// Whether the button with the number `button` went up during this tick.
    pub fn is_button_released(&self, button: u8) -> (r: bool)
        ensures
            r == self.player_input.buttons_released@.contains(button),
    {
        self.player_input.buttons_released.contains(&button)
    }
}

proof fn lemma_one_more_frame(
    frames: Seq<MessageC2S>,
    i: int,
    before: PlayerInput,
    after: PlayerInput,
)
    requires
        0 <= i < frames.len(),
        before.reflects(frames.take(i)),
        ({
            let frame = frames[i]->PlayerInput_0;
            &&& after.keys_down@ == frame.keys_down@.to_set()
            &&& after.keys_pressed@ == before.keys_pressed@.union(frame.keys_pressed@.to_set())
            &&& after.keys_released@ == before.keys_released@.union(frame.keys_released@.to_set())
            &&& after.buttons_down@ == button_codes(frame.buttons_down@)
            &&& after.buttons_pressed@ == before.buttons_pressed@.union(
                button_codes(frame.buttons_pressed@),
            )
            &&& after.buttons_released@ == before.buttons_released@.union(
                button_codes(frame.buttons_released@),
            )
            &&& after.mouse_position == frame.mouse_position
        }),
    ensures
        after.reflects(frames.take(i + 1)),
{
    let short = frames.take(i);
    let long = frames.take(i + 1);
    assert(long[i] == frames[i]);
    assert forall|j: int| 0 <= j < i implies #[trigger] long[j] == short[j] by {}
    let frame = frames[i]->PlayerInput_0;
    assert(pressed_in(long, i + 1) =~= pressed_in(short, i).union(frame.keys_pressed@.to_set())) by {
        assert forall|k: u16| pressed_in(long, i + 1).contains(k) <==> pressed_in(short, i).contains(
            k,
        ) || frame.keys_pressed@.contains(k) by {
            if pressed_in(short, i).contains(k) {
                let j = choose|j: int|
                    0 <= j < i && j < short.len() && (#[trigger] short[j])->PlayerInput_0.keys_pressed@.contains(
                        k,
                    );
                assert(long[j] == short[j]);
            }
            if pressed_in(long, i + 1).contains(k) {
                let j = choose|j: int|
                    0 <= j < i + 1 && j < long.len() && (#[trigger] long[j])->PlayerInput_0.keys_pressed@.contains(
                        k,
                    );
                if j < i {
                    assert(long[j] == short[j]);
                }
            }
        }
    }
    assert(released_in(long, i + 1) =~= released_in(short, i).union(frame.keys_released@.to_set()))
        by {
        assert forall|k: u16| released_in(long, i + 1).contains(k) <==> released_in(
            short,
            i,
        ).contains(k) || frame.keys_released@.contains(k) by {
            if released_in(short, i).contains(k) {
                let j = choose|j: int|
                    0 <= j < i && j < short.len() && (#[trigger] short[j])->PlayerInput_0.keys_released@.contains(
                        k,
                    );
                assert(long[j] == short[j]);
            }
            if released_in(long, i + 1).contains(k) {
                let j = choose|j: int|
                    0 <= j < i + 1 && j < long.len() && (#[trigger] long[j])->PlayerInput_0.keys_released@.contains(
                        k,
                    );
                if j < i {
                    assert(long[j] == short[j]);
                }
            }
        }
    }
    assert(buttons_pressed_in(long, i + 1) =~= buttons_pressed_in(short, i).union(
        button_codes(frame.buttons_pressed@),
    )) by {
        assert forall|c: u8| buttons_pressed_in(long, i + 1).contains(c) <==> buttons_pressed_in(
            short,
            i,
        ).contains(c) || button_codes(frame.buttons_pressed@).contains(c) by {
            if buttons_pressed_in(short, i).contains(c) {
                let j = choose|j: int|
                    0 <= j < i && j < short.len() && button_codes(
                        (#[trigger] short[j])->PlayerInput_0.buttons_pressed@,
                    ).contains(c);
                assert(long[j] == short[j]);
            }
            if buttons_pressed_in(long, i + 1).contains(c) {
                let j = choose|j: int|
                    0 <= j < i + 1 && j < long.len() && button_codes(
                        (#[trigger] long[j])->PlayerInput_0.buttons_pressed@,
                    ).contains(c);
                if j < i {
                    assert(long[j] == short[j]);
                }
            }
        }
    }
    assert(buttons_released_in(long, i + 1) =~= buttons_released_in(short, i).union(
        button_codes(frame.buttons_released@),
    )) by {
        assert forall|c: u8| buttons_released_in(long, i + 1).contains(c) <==> buttons_released_in(
            short,
            i,
        ).contains(c) || button_codes(frame.buttons_released@).contains(c) by {
            if buttons_released_in(short, i).contains(c) {
                let j = choose|j: int|
                    0 <= j < i && j < short.len() && button_codes(
                        (#[trigger] short[j])->PlayerInput_0.buttons_released@,
                    ).contains(c);
                assert(long[j] == short[j]);
            }
            if buttons_released_in(long, i + 1).contains(c) {
                let j = choose|j: int|
                    0 <= j < i + 1 && j < long.len() && button_codes(
                        (#[trigger] long[j])->PlayerInput_0.buttons_released@,
                    ).contains(c);
                if j < i {
                    assert(long[j] == short[j]);
                }
            }
        }
    }
}

/// An edge is never lost: a key that any frame of the tick reports as
/// pressed is pressed in the input that the frames leave, whatever frames
/// came after it.
pub proof fn lemma_edges_are_kept(input: PlayerInput, frames: Seq<MessageC2S>, i: int, key: u16)
    requires
        input.reflects(frames),
        0 <= i < frames.len(),
    ensures
        frames[i]->PlayerInput_0.keys_pressed@.contains(key) ==> input.keys_pressed@.contains(key),
        frames[i]->PlayerInput_0.keys_released@.contains(key) ==> input.keys_released@.contains(
            key,
        ),
{
}

} // verus!
