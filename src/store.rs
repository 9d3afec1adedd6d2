//! The indexed store of duplicate groups.

use vstd::prelude::*;

verus! {

/// What is known of one image: its path relative to the report's directory and
/// its size in pixels.
#[derive(Debug)]
pub struct ImgInfo {
    pub path: String,
    pub width: u32,
    pub height: u32,
}

/// The mathematical value of an [`ImgInfo`].
pub struct ImgView {
    pub path: Seq<char>,
    pub width: u32,
    pub height: u32,
}

impl View for ImgInfo {
    type V = ImgView;

    open spec fn view(&self) -> ImgView {
        ImgView { path: self.path@, width: self.width, height: self.height }
    }
}

impl ImgInfo {
    /// A copy of this record.
    pub fn duplicate(&self) -> (r: ImgInfo)
        ensures
            r@ == self@,
    {
        ImgInfo { path: self.path.clone(), width: self.width, height: self.height }
    }
}

/// The images of one group, in report order.
pub open spec fn group_view(g: Seq<ImgInfo>) -> Seq<ImgView> {
    g.map_values(|i: ImgInfo| i@)
}

/// All groups of duplicate images found in one report, addressed by position.
#[derive(Debug)]
pub struct DupGroups {
    pub groups: Vec<Vec<ImgInfo>>,
}

impl View for DupGroups {
    type V = Seq<Seq<ImgView>>;

    open spec fn view(&self) -> Seq<Seq<ImgView>> {
        self.groups@.map_values(|g: Vec<ImgInfo>| group_view(g@))
    }
}

/// No group is empty.
pub open spec fn groups_nonempty(gs: Seq<Seq<ImgView>>) -> bool {
    forall|k: int| 0 <= k < gs.len() ==> #[trigger] gs[k].len() > 0
}

impl DupGroups {
    pub open spec fn wf(&self) -> bool {
        groups_nonempty(self@)
    }

    /// An empty store, with room for `size_guess` groups.
    pub fn new(size_guess: usize) -> (r: DupGroups)
        ensures
            r@ == Seq::<Seq<ImgView>>::empty(),
            r.wf(),
    {
        let r = DupGroups { groups: Vec::with_capacity(size_guess) };
        assert(r@ =~= Seq::<Seq<ImgView>>::empty());
        r
    }

    /// Appends one group after the others.
    pub fn push_group(&mut self, group: Vec<ImgInfo>)
        requires
            old(self).wf(),
            group@.len() > 0,
        ensures
            final(self)@ == old(self)@.push(group_view(group@)),
            final(self).wf(),
    {
        let ghost g = group_view(group@);
        self.groups.push(group);
        assert(self@ =~= old(self)@.push(g));
    }

    /// The number of groups.
    pub fn num_groups(&self) -> (r: usize)
        ensures
            r == self@.len(),
    {
        self.groups.len()
    }

    /// The group at `group_idx`, if there is one.
    pub fn get_group(&self, group_idx: usize) -> (r: Option<&Vec<ImgInfo>>)
        ensures
            group_idx < self@.len() <==> r is Some,
            r matches Some(g) ==> group_view(g@) == self@[group_idx as int],
    {
        if group_idx < self.groups.len() {
            Some(&self.groups[group_idx])
        } else {
            None
        }
    }

    /// The image at `image_idx` of the group at `group_idx`, if there is one.
    pub fn get_image(&self, group_idx: usize, image_idx: usize) -> (r: Option<&ImgInfo>)
        ensures
            (group_idx < self@.len() && image_idx < self@[group_idx as int].len()) <==> r is Some,
            r matches Some(i) ==> i@ == self@[group_idx as int][image_idx as int],
    {
        if group_idx >= self.groups.len() {
            return None;
        }
        let group = &self.groups[group_idx];
        if image_idx < group.len() {
            Some(&group[image_idx])
        } else {
            None
        }
    }
}

} // verus!
