//! How the channels of a track are laid out.

use vstd::prelude::*;

verus! {

/// What one channel of a custom layout is for.
#[derive(Debug, Clone, Copy, PartialEq, Eq, Structural)]
pub enum ChannelLabel {
    /// A speaker position, as a mask with one bit set.
    Positioned(u64),
    /// An independent channel, by its number.
    Discrete(u16),
    /// An Ambisonic component, by its channel number.
    Ambisonic(u16),
    /// An Ambisonic B-format component, by its number.
    AmbisonicBFormat(u8),
    /// Anything else.
    Other,
}

/// The layout of the channels of a track.
#[derive(Debug, Clone)]
pub enum ChannelLayout {
    /// Channels at speaker positions, with one bit of the mask set for each of them.
    Positioned(u64),
    /// This many independent channels.
    Discrete(u16),
    /// All Ambisonic channels up to this order.
    Ambisonic(u8),
    /// Channels that are labelled one by one.
    Custom(Vec<ChannelLabel>),
    /// No channels.
    Empty,
    /// Anything else.
    Other,
}

impl ChannelLayout {
    /// The two layouts are of one kind and agree in every channel.
    pub open spec fn same(&self, other: &ChannelLayout) -> bool {
        match (*self, *other) {
            (ChannelLayout::Positioned(a), ChannelLayout::Positioned(b)) => a == b,
            (ChannelLayout::Discrete(a), ChannelLayout::Discrete(b)) => a == b,
            (ChannelLayout::Ambisonic(a), ChannelLayout::Ambisonic(b)) => a == b,
            (ChannelLayout::Custom(a), ChannelLayout::Custom(b)) => a@ == b@,
            (ChannelLayout::Empty, ChannelLayout::Empty) => true,
            (ChannelLayout::Other, ChannelLayout::Other) => true,
            _ => false,
        }
    }
}

} // verus!
