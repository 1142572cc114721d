use vstd::prelude::*;
use std::marker::PhantomData;

verus! {

/// One step of an analysis.
pub trait Pass {
    type Input;

    type Output;

    fn run(&self, input: Self::Input) -> Self::Output;
}

/// A pass followed by another, which gets what the first gave.
pub struct ThenPass<A, B> {
    a: A,
    b: B,
}

impl<A: Pass, B: Pass> Pass for ThenPass<A, B> where A::Output: Into<B::Input> {
    type Input = A::Input;

    type Output = B::Output;

    fn run(&self, input: A::Input) -> B::Output {
        self.b.run(self.a.run(input).into())
    }
}

/// Chaining of passes.
pub trait PassThen<P: Pass>: Pass + Sized where <Self as Pass>::Output: Into<P::Input> {
    fn then(self, pass: P) -> ThenPass<Self, P> {
        ThenPass { a: self, b: pass }
    }
}

impl<A: Pass, B: Pass> PassThen<B> for A where A::Output: Into<B::Input> {

}

/// A function used as a pass; it must accept every input.
#[verifier::reject_recursive_types(In)]
#[verifier::reject_recursive_types(Out)]
pub struct FnPass<F: Fn(In) -> Out, In, Out>(F, PhantomData<In>, PhantomData<Out>);

impl<F: Fn(In) -> Out, In, Out> FnPass<F, In, Out> {
    #[verifier::type_invariant]
    spec fn total(&self) -> bool {
        forall|i: In| #[trigger] self.0.requires((i,))
    }

    pub fn new(f: F) -> (r: Self)
        requires
            forall|i: In| #[trigger] f.requires((i,)),
    {
        FnPass(f, PhantomData, PhantomData)
    }
}

impl<F: Fn(In) -> Out, In, Out> Pass for FnPass<F, In, Out> {
    type Input = In;

    type Output = Out;

    fn run(&self, input: In) -> Out {
        proof {
            use_type_invariant(self);
        }
        (self.0)(input)
    }
}

/// Turning a function into a pass.
pub trait IntoFnPass<In, Out>: Sized {
    fn into_pass(self) -> FnPass<Self, In, Out> where Self: Fn(In) -> Out
        requires
            forall|i: In| #[trigger] self.requires((i,)),
    ;
}

impl<F: Fn(In) -> Out, In, Out> IntoFnPass<In, Out> for F {
    fn into_pass(self) -> FnPass<F, In, Out> {
        FnPass::new(self)
    }
}

/// Chaining of a pass with a function, whose input is made from the pass's output.
pub trait PassThenExt<T, P: Pass>: PassThen<P> where <Self as Pass>::Output: Into<P::Input> {
    /// Whether `pass` can be used: a function must accept every input.
    spec fn usable(pass: &T) -> bool;

    fn then_into(self, pass: T) -> ThenPass<Self, P>
        requires
            Self::usable(&pass),
    ;
}

impl<This, T, In, Out> PassThenExt<T, FnPass<T, In, Out>> for This where
    T: Fn(In) -> Out,
    This: Pass,
    <This as Pass>::Output: Into<In>,
 {
    open spec fn usable(pass: &T) -> bool {
        forall|i: In| #[trigger] pass.requires((i,))
    }

    fn then_into(self, pass: T) -> ThenPass<This, FnPass<T, In, Out>> {
        ThenPass { a: self, b: FnPass::new(pass) }
    }
}

/// Holds the data that passes run on.
pub struct Pipeline<DataBase> {
    db: DataBase,
}

impl<Db> Pipeline<Db> {
    pub closed spec fn data(&self) -> Db {
        self.db
    }

    pub fn new(db: Db) -> (r: Self)
        ensures
            r.data() == db,
    {
        Pipeline { db }
    }

    /// Runs a pass on the data.
    pub fn run<'a, P: Pass<Input = &'a Db>>(&'a self, pass: P) -> P::Output {
        pass.run(&self.db)
    }
}

} // verus!
