//! Rule definitions: an action to take when something happens to a card.

use crate::error::DomainError;
use crate::ids::{BucketId, RuleId};
use crate::text::{is_blank, is_blank_str, trim, trimmed};
use vstd::prelude::*;
use vstd::string::*;

verus! {

/// What sets a rule off.
#[derive(Debug, Clone, Copy, PartialEq, Eq, Structural)]
pub enum RuleTrigger {
    NoteOpened,
    NoteClosed,
    MovedToBucket(BucketId),
}

/// What a rule does.
#[derive(Debug, Clone, PartialEq, Eq)]
pub enum RuleAction {
    ShowPopup { title: String, message: String },
}

/// The abstract content of a rule definition.
pub ghost struct RuleModel {
    pub id: RuleId,
    pub name: Seq<char>,
    pub trigger: RuleTrigger,
    pub action: RuleAction,
}

/// A named rule: a trigger and an action.
#[derive(Debug, Clone, PartialEq, Eq)]
pub struct RuleDefinition {
    id: RuleId,
    name: String,
    trigger: RuleTrigger,
    action: RuleAction,
}

impl View for RuleDefinition {
    type V = RuleModel;

    closed spec fn view(&self) -> RuleModel {
        RuleModel { id: self.id, name: self.name@, trigger: self.trigger, action: self.action }
    }
}

/// Whether the action has all it needs: a popup needs a title and a message.
pub open spec fn action_complete(action: RuleAction) -> bool {
    match action {
        RuleAction::ShowPopup { title, message } => !is_blank(title@) && !is_blank(message@),
    }
}

/// The text of the error for a blank rule name.
pub open spec fn blank_rule_name_text() -> Seq<char> {
    "Rule name cannot be empty or blank"@
}

/// The text of the error for a popup without title or message.
pub open spec fn incomplete_popup_text() -> Seq<char> {
    "Popup rules require both a title and message"@
}

impl RuleDefinition {
    /// Creates a rule with the given identifier: the name is trimmed and must not be
    /// blank, and a popup needs a non-blank title and message.
    pub fn new_with_id(id: RuleId, name: String, trigger: RuleTrigger, action: RuleAction) -> (r:
        Result<RuleDefinition, DomainError>)
        ensures
            is_blank(name@) ==> (r matches Err(DomainError::InvalidOperation(m)) && m@
                == blank_rule_name_text()),
            !is_blank(name@) && !action_complete(action) ==> (r matches Err(
                DomainError::InvalidOperation(m),
            ) && m@ == incomplete_popup_text()),
            !is_blank(name@) && action_complete(action) ==> (r matches Ok(rule) && rule@
                == (RuleModel { id, name: trimmed(name@), trigger, action })),
    {
        let t = trim(name.as_str());
        if t.unicode_len() == 0 {
            return Err(
                DomainError::InvalidOperation(String::from_str("Rule name cannot be empty or blank")),
            );
        }
        match &action {
            RuleAction::ShowPopup { title, message } => {
                if is_blank_str(title.as_str()) || is_blank_str(message.as_str()) {
                    return Err(
                        DomainError::InvalidOperation(
                            String::from_str("Popup rules require both a title and message"),
                        ),
                    );
                }
            },
        }
        Ok(RuleDefinition { id, name: String::from_str(t), trigger, action })
    }

    /// Creates a rule with a fresh identifier, under the rules of `new_with_id`.
    pub fn new(name: String, trigger: RuleTrigger, action: RuleAction) -> (r: Result<
        RuleDefinition,
        DomainError,
    >)
        ensures
            is_blank(name@) ==> (r matches Err(DomainError::InvalidOperation(m)) && m@
                == blank_rule_name_text()),
            !is_blank(name@) && !action_complete(action) ==> (r matches Err(
                DomainError::InvalidOperation(m),
            ) && m@ == incomplete_popup_text()),
            !is_blank(name@) && action_complete(action) ==> (r matches Ok(rule) && rule@.name
                == trimmed(name@) && rule@.trigger == trigger && rule@.action == action),
    {
        RuleDefinition::new_with_id(RuleId::new(), name, trigger, action)
    }

    /// The rule's identifier.
    pub fn id(&self) -> (r: RuleId)
        ensures
            r == self@.id,
    {
        self.id
    }

    /// The rule's name.
    pub fn name(&self) -> (r: &str)
        ensures
            r@ == self@.name,
    {
        self.name.as_str()
    }

    /// What sets the rule off.
    pub fn trigger(&self) -> (r: &RuleTrigger)
        ensures
            *r == self@.trigger,
    {
        &self.trigger
    }

    /// What the rule does.
    pub fn action(&self) -> (r: &RuleAction)
        ensures
            *r == self@.action,
    {
        &self.action
    }
}

} // verus!
