//! The channel binding and the reconnection state machine shared by the
//! sender and the receiver.
//!
//! The state machine owns no socket: each transition returns the action that
//! the caller performs on the network resource.
use vstd::prelude::*;

use crate::BASE_PORT;

verus! {

/// The TCP port that channel `channel` binds to.
pub open spec fn port_of(channel: u8) -> u16 {
    (BASE_PORT + channel) as u16
}

/// What to do with the network resource after a transition.
#[derive(Debug, PartialEq, Eq, Structural)]
pub enum LinkAction {
    /// Leave the resource as it is.
    Keep,
    /// Create the resource, bound to the port.
    Open(u16),
    /// Tear the resource down, then create its replacement on the port.
    Reopen(u16),
    /// Tear the resource down.
    Close,
}

/// The mathematical state of a [`Link`].
pub ghost struct LinkView {
    pub channel: u8,
    pub active: bool,
    pub generation: u64,
}

/// Which channel is bound, whether a network resource exists, and which
/// resource is the current one: `generation` changes each time a resource
/// is created.
pub struct Link {
    channel: u8,
    active: bool,
    generation: u64,
}

impl View for Link {
    type V = LinkView;

    closed spec fn view(&self) -> LinkView {
        LinkView { channel: self.channel, active: self.active, generation: self.generation }
    }
}

/// The identity of the resource that replaces the one of generation `g`.
pub open spec fn next_generation(g: u64) -> u64 {
    if g == u64::MAX {
        0
    } else {
        (g + 1) as u64
    }
}

/// The state and action after activation.
pub open spec fn activate_spec(v: LinkView) -> (LinkView, LinkAction) {
    (
        LinkView { active: true, generation: next_generation(v.generation), ..v },
        if v.active {
            LinkAction::Reopen(port_of(v.channel))
        } else {
            LinkAction::Open(port_of(v.channel))
        },
    )
}

/// The state and action after deactivation.
pub open spec fn deactivate_spec(v: LinkView) -> (LinkView, LinkAction) {
    (
        LinkView { active: false, ..v },
        if v.active {
            LinkAction::Close
        } else {
            LinkAction::Keep
        },
    )
}

/// The state and action after the channel control reads `channel`.
pub open spec fn set_channel_spec(v: LinkView, channel: u8) -> (LinkView, LinkAction) {
    if channel == v.channel {
        (v, LinkAction::Keep)
    } else if v.active {
        (
            LinkView { channel, generation: next_generation(v.generation), ..v },
            LinkAction::Reopen(port_of(channel)),
        )
    } else {
        (LinkView { channel, ..v }, LinkAction::Keep)
    }
}

/// The state and action after the resource was found dead.
pub open spec fn fail_spec(v: LinkView) -> (LinkView, LinkAction) {
    if v.active {
        (
            LinkView { generation: next_generation(v.generation), ..v },
            LinkAction::Reopen(port_of(v.channel)),
        )
    } else {
        (v, LinkAction::Keep)
    }
}

/// A rebind replaces the current resource by one bound to the new channel's
/// port, whose generation differs from the old one.
pub proof fn lemma_rebind(v: LinkView, channel: u8)
    requires
        v.active,
        channel != v.channel,
    ensures
        set_channel_spec(v, channel).1 == LinkAction::Reopen(port_of(channel)),
        set_channel_spec(v, channel).0.channel == channel,
        set_channel_spec(v, channel).0.active,
        set_channel_spec(v, channel).0.generation != v.generation,
{
}

impl Link {
    /// Channel 0, with no resource.
    pub fn new() -> (r: Link)
        ensures
            r@ == (LinkView { channel: 0, active: false, generation: 0 }),
    {
        Link { channel: 0, active: false, generation: 0 }
    }

    pub fn channel(&self) -> (r: u8)
        ensures
            r == self@.channel,
    {
        self.channel
    }

    pub fn is_active(&self) -> (r: bool)
        ensures
            r == self@.active,
    {
        self.active
    }

    pub fn generation(&self) -> (r: u64)
        ensures
            r == self@.generation,
    {
        self.generation
    }

    /// The port of the bound channel.
    pub fn port(&self) -> (r: u16)
        ensures
            r == port_of(self@.channel),
    {
        BASE_PORT + self.channel as u16
    }

    fn bump(&mut self)
        ensures
            final(self)@ == (LinkView { generation: next_generation(old(self)@.generation), ..old(self)@ }),
    {
        self.generation = if self.generation == u64::MAX {
            0
        } else {
            self.generation + 1
        };
    }

    /// Creates the resource; one that exists is replaced.
    pub fn activate(&mut self) -> (r: LinkAction)
        ensures
            (final(self)@, r) == activate_spec(old(self)@),
    {
        let was_active = self.active;
        self.active = true;
        self.bump();
        if was_active {
            LinkAction::Reopen(self.port())
        } else {
            LinkAction::Open(self.port())
        }
    }

    /// Releases the resource, if there is one.
    pub fn deactivate(&mut self) -> (r: LinkAction)
        ensures
            (final(self)@, r) == deactivate_spec(old(self)@),
    {
        let was_active = self.active;
        self.active = false;
        if was_active {
            LinkAction::Close
        } else {
            LinkAction::Keep
        }
    }

    /// Binds `channel`; a live resource on another channel is rebuilt on the
    /// new port.
    pub fn set_channel(&mut self, channel: u8) -> (r: LinkAction)
        ensures
            (final(self)@, r) == set_channel_spec(old(self)@, channel),
    {
        if channel == self.channel {
            return LinkAction::Keep;
        }
        self.channel = channel;
        if self.active {
            self.bump();
            LinkAction::Reopen(self.port())
        } else {
            LinkAction::Keep
        }
    }

    /// Rebuilds a live resource that was found dead.
    pub fn fail(&mut self) -> (r: LinkAction)
        ensures
            (final(self)@, r) == fail_spec(old(self)@),
    {
        if self.active {
            self.bump();
            LinkAction::Reopen(self.port())
        } else {
            LinkAction::Keep
        }
    }
}

} // verus!
